//! The edit engine: holds the working line buffer, validates every
//! address against the pristine input, then executes commands in order.
//! Every operation is proved equal to its model in `model`.

use vstd::prelude::*;

use crate::EditError;
use crate::chars::views_of;
use crate::lnhash::{LnHash, line_hash_spec, line_hash_u16, dec_string, hex4_string};
use crate::model::{
    BufModel, LineModel, origins_in, strictly_ascending,
};
use crate::parse::{Command, Subcommand, Subst};

verus! {

/// One line of the working buffer.
pub(crate) struct Line {
    pub text: String,
    pub origin: Option<usize>,
    pub modified: bool,
    pub global_mark: bool,
}

impl View for Line {
    type V = LineModel;

    closed spec fn view(&self) -> LineModel {
        LineModel {
            text: self.text@,
            origin: self.origin,
            modified: self.modified,
            mark: self.global_mark,
        }
    }
}

/// The models of a sequence of buffer lines.
pub(crate) open spec fn models(s: Seq<Line>) -> Seq<LineModel> {
    Seq::new(s.len(), |i: int| s[i]@)
}

pub(crate) fn clone_line(l: &Line) -> (r: Line)
    ensures
        r@ == l@,
{
    Line {
        text: l.text.clone(),
        origin: l.origin,
        modified: l.modified,
        global_mark: l.global_mark,
    }
}

/// Replace `v[from..to]` by `repl`, as a fresh vector.
fn spliced(v: &Vec<Line>, from: usize, to: usize, repl: &Vec<Line>) -> (res: Vec<Line>)
    requires
        from <= to <= v@.len(),
    ensures
        models(res@) == models(v@).take(from as int) + models(repl@) + models(v@).skip(to as int),
{
    let mut res: Vec<Line> = Vec::new();
    let mut i: usize = 0;
    while i < from
        invariant
            i <= from <= to <= v@.len(),
            models(res@) =~= models(v@).take(i as int),
        decreases from - i,
    {
        proof {
            assert(models(res@.push(v@[i as int])) =~= models(res@).push(v@[i as int]@));
        }
        res.push(clone_line(&v[i]));
        i = i + 1;
    }
    let mut j: usize = 0;
    while j < repl.len()
        invariant
            j <= repl@.len(),
            from <= to <= v@.len(),
            models(res@) =~= models(v@).take(from as int) + models(repl@).take(j as int),
        decreases repl@.len() - j,
    {
        proof {
            assert(models(res@.push(repl@[j as int])) =~= models(res@).push(repl@[j as int]@));
            assert(models(v@).take(from as int) + models(repl@).take(j + 1) =~= (models(
                v@,
            ).take(from as int) + models(repl@).take(j as int)).push(repl@[j as int]@));
        }
        res.push(clone_line(&repl[j]));
        j = j + 1;
    }
    proof {
        assert(models(repl@).take(repl@.len() as int) =~= models(repl@));
    }
    let mut k: usize = to;
    while k < v.len()
        invariant
            to <= k <= v@.len(),
            from <= to,
            models(res@) =~= models(v@).take(from as int) + models(repl@) + models(
                v@,
            ).skip(to as int).take(k - to),
        decreases v@.len() - k,
    {
        proof {
            assert(models(res@.push(v@[k as int])) =~= models(res@).push(v@[k as int]@));
            assert(models(v@).skip(to as int).take(k - to + 1) =~= models(v@).skip(
                to as int,
            ).take(k - to).push(v@[k as int]@));
        }
        res.push(clone_line(&v[k]));
        k = k + 1;
    }
    proof {
        assert(models(v@).skip(to as int).take(v@.len() - to) =~= models(v@).skip(to as int));
    }
    res
}

/// Insert `o` into a strictly ascending sequence, keeping it a sorted
/// set.
fn insert_origin(d: &mut Vec<usize>, o: usize)
    requires
        strictly_ascending(old(d)@),
    ensures
        strictly_ascending(final(d)@),
        final(d)@.to_set() == old(d)@.to_set().insert(o),
{
    let mut idx: usize = 0;
    while idx < d.len() && d[idx] < o
        invariant
            idx <= d@.len(),
            forall|k: int| 0 <= k < idx ==> d@[k] < o,
            strictly_ascending(d@),
            d@ == old(d)@,
        decreases d@.len() - idx,
    {
        idx = idx + 1;
    }
    if idx < d.len() && d[idx] == o {
        proof {
            assert(d@.to_set().contains(o));
            assert(d@.to_set() =~= d@.to_set().insert(o));
        }
        return ;
    }
    let ghost pre = d@;
    d.insert(idx, o);
    proof {
        pre.insert_ensures(idx as int, o);
        assert(strictly_ascending(d@)) by {
            assert forall|i: int, j: int| 0 <= i < j < d@.len() implies d@[i] < d@[j] by {
                assert(d@[i] == if i < idx { pre[i] } else if i == idx { o } else { pre[i - 1] });
                assert(d@[j] == if j < idx { pre[j] } else if j == idx { o } else { pre[j - 1] });
                if idx < pre.len() {
                    assert(!(pre[idx as int] < o));
                }
            }
        }
        assert(d@.to_set() =~= pre.to_set().insert(o)) by {
            assert forall|x: usize| d@.to_set().contains(x) implies pre.to_set().insert(
                o,
            ).contains(x) by {
                let w = choose|w: int| 0 <= w < d@.len() && d@[w] == x;
                if w < idx {
                    assert(pre[w] == x);
                } else if w > idx {
                    assert(pre[w - 1] == x);
                }
            }
            assert forall|x: usize| pre.to_set().insert(o).contains(x) implies d@.to_set().contains(
                x,
            ) by {
                if x == o {
                    assert(d@[idx as int] == o);
                } else {
                    let w = choose|w: int| 0 <= w < pre.len() && pre[w] == x;
                    if w < idx {
                        assert(d@[w] == x);
                    } else {
                        assert(d@[w + 1] == x);
                    }
                }
            }
        }
    }
}

proof fn lemma_origins_empty(lines: Seq<LineModel>, s: int)
    ensures
        origins_in(lines, s, s - 1) =~= Set::<usize>::empty(),
{
}

proof fn lemma_origins_extend(lines: Seq<LineModel>, s: int, i: int)
    requires
        s <= i < lines.len(),
        0 <= i,
    ensures
        origins_in(lines, s, i) =~= (match lines[i].origin {
            Some(o) => origins_in(lines, s, i - 1).insert(o),
            None => origins_in(lines, s, i - 1),
        }),
{
    let prev = origins_in(lines, s, i - 1);
    let cur = origins_in(lines, s, i);
    assert forall|x: usize| cur.contains(x) implies (match lines[i].origin {
        Some(o) => prev.insert(o).contains(x),
        None => prev.contains(x),
    }) by {
        let w = choose|w: int| s <= w <= i && 0 <= w < lines.len() && lines[w].origin == Some(x);
        if w < i {
            assert(prev.contains(x));
        }
    }
    assert forall|x: usize|
        (match lines[i].origin {
            Some(o) => prev.insert(o).contains(x),
            None => prev.contains(x),
        }) implies cur.contains(x) by {
        match lines[i].origin {
            Some(o) => {
                if x == o {
                    assert(s <= i <= i && 0 <= i < lines.len() && lines[i].origin == Some(x));
                } else {
                    let w = choose|w: int|
                        s <= w <= i - 1 && 0 <= w < lines.len() && lines[w].origin == Some(x);
                    assert(s <= w <= i && lines[w].origin == Some(x));
                }
            },
            None => {
                let w = choose|w: int|
                    s <= w <= i - 1 && 0 <= w < lines.len() && lines[w].origin == Some(x);
                assert(s <= w <= i && lines[w].origin == Some(x));
            },
        }
    }
}

/// Record the origins of `lines[s .. e]` (0-based, exclusive end) in the
/// deleted set.
fn add_origins(lines: &Vec<Line>, s: usize, e: usize, d: &mut Vec<usize>)
    requires
        s <= e <= lines@.len(),
        strictly_ascending(old(d)@),
    ensures
        strictly_ascending(final(d)@),
        final(d)@.to_set() == old(d)@.to_set().union(origins_in(models(lines@), s as int, e - 1)),
{
    let mut i = s;
    proof {
        lemma_origins_empty(models(lines@), s as int);
        assert(d@.to_set() =~= d@.to_set().union(origins_in(models(lines@), s as int, s - 1)));
    }
    while i < e
        invariant
            s <= i <= e <= lines@.len(),
            strictly_ascending(d@),
            d@.to_set() == old(d)@.to_set().union(
                origins_in(models(lines@), s as int, i - 1),
            ),
        decreases e - i,
    {
        proof {
            lemma_origins_extend(models(lines@), s as int, i as int);
            assert(models(lines@)[i as int] == lines@[i as int]@);
        }
        match lines[i].origin {
            Some(o) => {
                insert_origin(d, o);
                proof {
                    assert(d@.to_set() =~= old(d)@.to_set().union(
                        origins_in(models(lines@), s as int, i as int),
                    ));
                }
            },
            None => {
                proof {
                    assert(d@.to_set() =~= old(d)@.to_set().union(
                        origins_in(models(lines@), s as int, i as int),
                    ));
                }
            },
        }
        i = i + 1;
    }
}

/// Turn a text block into fresh buffer lines.
fn block_to_lines(text: &Vec<String>) -> (v: Vec<Line>)
    ensures
        models(v@) == crate::model::block_lines(views_of(text@)),
{
    let mut v: Vec<Line> = Vec::new();
    let mut i: usize = 0;
    while i < text.len()
        invariant
            i <= text@.len(),
            models(v@) =~= crate::model::block_lines(views_of(text@)).take(i as int),
        decreases text@.len() - i,
    {
        let l = Line {
            text: text[i].clone(),
            origin: None,
            modified: true,
            global_mark: false,
        };
        proof {
            assert(models(v@.push(l)) =~= models(v@).push(l@));
            assert(crate::model::block_lines(views_of(text@)).take(i + 1) =~= crate::model::block_lines(
                views_of(text@),
            ).take(i as int).push(crate::model::block_lines(views_of(text@))[i as int]));
        }
        v.push(l);
        i = i + 1;
    }
    proof {
        assert(crate::model::block_lines(views_of(text@)).take(text@.len() as int)
            =~= crate::model::block_lines(views_of(text@)));
    }
    v
}

/// The working engine: the line buffer and the deleted-origin set, kept
/// as a strictly ascending vector.
pub(crate) struct Engine {
    pub lines: Vec<Line>,
    pub deleted: Vec<usize>,
}

impl Engine {
    /// The buffer this engine holds, as a model.
    pub(crate) open spec fn buf(&self) -> BufModel {
        BufModel { lines: models(self.lines@), deleted: self.deleted@.to_set() }
    }

    pub(crate) open spec fn wf(&self) -> bool {
        strictly_ascending(self.deleted@)
    }

    /// Build the pristine buffer: one line per input line, origins 1-based.
    pub(crate) fn new(input_lines: Vec<String>) -> (e: Engine)
        ensures
            e.buf() == crate::model::init_buf(views_of(input_lines@)),
            e.wf(),
    {
        let mut lines: Vec<Line> = Vec::new();
        let mut i: usize = 0;
        let ghost target = crate::model::init_buf(views_of(input_lines@)).lines;
        while i < input_lines.len()
            invariant
                i <= input_lines@.len(),
                target == crate::model::init_buf(views_of(input_lines@)).lines,
                models(lines@) =~= target.take(i as int),
            decreases input_lines@.len() - i,
        {
            let l = Line {
                text: input_lines[i].clone(),
                origin: Some(i + 1),
                modified: false,
                global_mark: false,
            };
            proof {
                assert(models(lines@.push(l)) =~= models(lines@).push(l@));
                assert(target.take(i + 1) =~= target.take(i as int).push(target[i as int]));
            }
            lines.push(l);
            i = i + 1;
        }
        let e = Engine { lines, deleted: Vec::new() };
        proof {
            assert(target.take(target.len() as int) =~= target);
            assert(e.deleted@.to_set() =~= Set::<usize>::empty());
        }
        e
    }

    /// Check a `[start, end]` range against the current buffer; messages
    /// mirror the model's `resolve_ok`.
    fn resolve_range(&self, start: usize, end: usize) -> (r: Result<(), EditError>)
        ensures
            r is Ok <==> crate::model::resolve_ok(self.buf().lines.len() as int, start as int, end as int),
    {
        if start == 0 || end == 0 {
            return Err(EditError::from_text("address 0 is not valid for this command"));
        }
        if start > end {
            return Err(
                EditError::new(
                    String::from_str("invalid range: ").concat(dec_string(start).as_str()).concat(
                        "..",
                    ).concat(dec_string(end).as_str()),
                ),
            );
        }
        if end > self.lines.len() {
            return Err(
                EditError::new(
                    String::from_str("address out of range: ").concat(
                        dec_string(end).as_str(),
                    ).concat(" > ").concat(dec_string(self.lines.len()).as_str()),
                ),
            );
        }
        Ok(())
    }

    /// Remove `[start, end]`, recording origins as deleted.
    fn delete_range(&mut self, start: usize, end: usize) -> (r: Result<(), EditError>)
        requires
            old(self).wf(),
        ensures
            final(self).wf(),
            match r {
                Ok(_) => crate::model::delete_spec(old(self).buf(), start as int, end as int)
                    == Some(final(self).buf()),
                Err(_) => crate::model::delete_spec(old(self).buf(), start as int, end as int)
                    is None,
            },
    {
        match self.resolve_range(start, end) {
            Err(e) => {
                return Err(e);
            },
            Ok(_) => {},
        }
        add_origins(&self.lines, start - 1, end, &mut self.deleted);
        let empty: Vec<Line> = Vec::new();
        let nl = spliced(&self.lines, start - 1, end, &empty);
        self.lines = nl;
        proof {
            assert(models(empty@) =~= Seq::<LineModel>::empty());
            assert(models(old(self).lines@).take(start - 1) + Seq::<LineModel>::empty() + models(
                old(self).lines@,
            ).skip(end as int) =~= models(old(self).lines@).take(start - 1) + models(
                old(self).lines@,
            ).skip(end as int));
        }
        Ok(())
    }

    /// Mark every line in range modified without changing content.
    fn print_range(&mut self, start: usize, end: usize) -> (r: Result<(), EditError>)
        requires
            old(self).wf(),
        ensures
            final(self).wf(),
            match r {
                Ok(_) => crate::model::print_spec(old(self).buf(), start as int, end as int)
                    == Some(final(self).buf()),
                Err(_) => crate::model::print_spec(old(self).buf(), start as int, end as int)
                    is None,
            },
    {
        match self.resolve_range(start, end) {
            Err(e) => {
                return Err(e);
            },
            Ok(_) => {},
        }
        let ghost target = crate::model::print_spec(old(self).buf(), start as int, end as int)
            .unwrap().lines;
        let mut idx = start - 1;
        while idx < end
            invariant
                start - 1 <= idx <= end <= self.lines@.len(),
                1 <= start,
                self.lines@.len() == old(self).lines@.len(),
                self.deleted@ == old(self).deleted@,
                target == crate::model::print_spec(old(self).buf(), start as int, end as int)
                    .unwrap().lines,
                target.len() == self.lines@.len(),
                forall|k: int| 0 <= k < idx ==> models(self.lines@)[k] == target[k],
                forall|k: int|
                    idx <= k < self.lines@.len() ==> models(self.lines@)[k] == models(
                        old(self).lines@,
                    )[k],
            decreases end - idx,
    {
            let mut l = clone_line(&self.lines[idx]);
            l.modified = true;
            self.lines[idx] = l;
            idx = idx + 1;
        }
        proof {
            assert(models(self.lines@) =~= target);
        }
        Ok(())
    }

    /// Insert the text block after `end` (or before the first line for
    /// the sentinel).
    fn append_after(&mut self, start: usize, end: usize, text: &Vec<String>) -> (r: Result<
        (),
        EditError,
    >)
        requires
            old(self).wf(),
        ensures
            final(self).wf(),
            match r {
                Ok(_) => crate::model::append_spec(
                    old(self).buf(),
                    start as int,
                    end as int,
                    views_of(text@),
                ) == Some(final(self).buf()),
                Err(_) => crate::model::append_spec(
                    old(self).buf(),
                    start as int,
                    end as int,
                    views_of(text@),
                ) is None,
            },
    {
        let after: usize = if start == 0 {
            0
        } else {
            end
        };
        if after != 0 && after > self.lines.len() {
            return Err(
                EditError::new(
                    String::from_str("address out of range: ").concat(
                        dec_string(after).as_str(),
                    ).concat(" > ").concat(dec_string(self.lines.len()).as_str()),
                ),
            );
        }
        if text.len() == 0 {
            return Ok(());
        }
        let block = block_to_lines(text);
        let nl = spliced(&self.lines, after, after, &block);
        self.lines = nl;
        Ok(())
    }

    /// Insert the text block before `before` (or before the first line
    /// for the sentinel).
    fn insert_before(&mut self, before: usize, text: &Vec<String>) -> (r: Result<(), EditError>)
        requires
            old(self).wf(),
        ensures
            final(self).wf(),
            match r {
                Ok(_) => crate::model::insert_spec(old(self).buf(), before as int, views_of(text@))
                    == Some(final(self).buf()),
                Err(_) => crate::model::insert_spec(
                    old(self).buf(),
                    before as int,
                    views_of(text@),
                ) is None,
            },
    {
        if before != 0 && before > self.lines.len() {
            return Err(
                EditError::new(
                    String::from_str("address out of range: ").concat(
                        dec_string(before).as_str(),
                    ).concat(" > ").concat(dec_string(self.lines.len()).as_str()),
                ),
            );
        }
        let at: usize = if before == 0 {
            0
        } else {
            before - 1
        };
        if text.len() == 0 {
            return Ok(());
        }
        let block = block_to_lines(text);
        let nl = spliced(&self.lines, at, at, &block);
        self.lines = nl;
        Ok(())
    }

    /// Replace `[start, end]` by the text block.
    fn change_range(&mut self, start: usize, end: usize, text: &Vec<String>) -> (r: Result<
        (),
        EditError,
    >)
        requires
            old(self).wf(),
        ensures
            final(self).wf(),
            match r {
                Ok(_) => crate::model::change_spec(
                    old(self).buf(),
                    start as int,
                    end as int,
                    views_of(text@),
                ) == Some(final(self).buf()),
                Err(_) => crate::model::change_spec(
                    old(self).buf(),
                    start as int,
                    end as int,
                    views_of(text@),
                ) is None,
            },
    {
        match self.resolve_range(start, end) {
            Err(e) => {
                return Err(e);
            },
            Ok(_) => {},
        }
        add_origins(&self.lines, start - 1, end, &mut self.deleted);
        let block = block_to_lines(text);
        let nl = spliced(&self.lines, start - 1, end, &block);
        self.lines = nl;
        proof {
            let pre = models(old(self).lines@);
            let removed_lines = pre.take(start - 1) + pre.skip(end as int);
            if views_of(text@).len() == 0 {
                assert(models(block@) =~= Seq::<LineModel>::empty());
                assert(pre.take(start - 1) + models(block@) + pre.skip(end as int)
                    =~= removed_lines);
            } else {
                assert(removed_lines.take(start - 1) =~= pre.take(start - 1));
                assert(removed_lines.skip(start - 1) =~= pre.skip(end as int));
            }
        }
        Ok(())
    }
    /// Join the addressed line with the next one.
    fn join_with_next(&mut self, line: usize) -> (r: Result<(), EditError>)
        requires
            old(self).wf(),
        ensures
            final(self).wf(),
            match r {
                Ok(_) => crate::model::join_next_spec(old(self).buf(), line as int) == Some(
                    final(self).buf(),
                ),
                Err(_) => crate::model::join_next_spec(old(self).buf(), line as int) is None,
            },
            r is Ok ==> final(self).buf().lines.len() == old(self).buf().lines.len() - 1,
            r is Ok ==> final(self).buf().lines[line - 1].text == crate::model::join_texts(
                old(self).buf().lines[line - 1].text,
                old(self).buf().lines[line as int].text,
            ),
            r is Ok ==> (match old(self).buf().lines[line as int].origin {
                Some(o) => final(self).buf().deleted.contains(o),
                None => final(self).buf().deleted == old(self).buf().deleted,
            }),
    {
        if line == 0 {
            return Err(EditError::from_text("address 0 is not valid for join"));
        }
        if self.lines.len() < 2 {
            return Err(EditError::from_text("cannot join: file has fewer than 2 lines"));
        }
        if line >= self.lines.len() {
            return Err(EditError::from_text("cannot join: no next line"));
        }
        let idx = line - 1;
        let joined = join_strings(
            self.lines[idx].text.as_str(),
            self.lines[idx + 1].text.as_str(),
        );
        let ghost pre = models(self.lines@);
        if !crate::chars::str_eq(joined.as_str(), self.lines[idx].text.as_str()) {
            let mut l = clone_line(&self.lines[idx]);
            l.text = joined;
            l.modified = true;
            self.lines[idx] = l;
        }
        proof {
            crate::model::lemma_origins_congruent(models(self.lines@), pre, line as int, line as int);
        }
        add_origins(&self.lines, idx + 1, idx + 2, &mut self.deleted);
        let _removed = self.lines.remove(idx + 1);
        proof {
            let spec_l1 = crate::model::join_next_spec(old(self).buf(), line as int).unwrap()
                .lines;
            assert(models(self.lines@) =~= spec_l1);
            crate::laws::lemma_join_next(old(self).buf(), line as int);
        }
        Ok(())
    }

    /// Fold the whole range into one line at `start`.
    fn join_range(&mut self, start: usize, end: usize) -> (r: Result<(), EditError>)
        requires
            old(self).wf(),
        ensures
            final(self).wf(),
            match r {
                Ok(_) => crate::model::join_range_spec(old(self).buf(), start as int, end as int)
                    == Some(final(self).buf()),
                Err(_) => crate::model::join_range_spec(old(self).buf(), start as int, end as int)
                    is None,
            },
            r is Ok && start == end ==> final(self).buf() == old(self).buf(),
            r is Ok && start < end ==> final(self).buf().lines.len() == old(self).buf().lines.len()
                - (end - start),
            r is Ok && start < end ==> final(self).buf().lines[start - 1].text
                == crate::model::fold_join(old(self).buf().lines, start - 1, end - 1),
            r is Ok && start < end ==> forall|o: usize|
                origins_in(old(self).buf().lines, start as int, end - 1).contains(o)
                    ==> final(self).buf().deleted.contains(o),
    {
        match self.resolve_range(start, end) {
            Err(e) => {
                return Err(e);
            },
            Ok(_) => {},
        }
        if start == end {
            return Ok(());
        }
        let s = start - 1;
        let e = end - 1;
        let mut joined: String = self.lines[s].text.clone();
        let mut i = s + 1;
        while i < end
            invariant
                s + 1 <= i <= end <= self.lines@.len(),
                e == end - 1,
                s == start - 1,
                joined@ == crate::model::fold_join(models(self.lines@), s as int, i - 1),
            decreases end - i,
        {
            joined = join_strings(joined.as_str(), self.lines[i].text.as_str());
            i = i + 1;
        }
        let ghost pre = models(self.lines@);
        if !crate::chars::str_eq(joined.as_str(), self.lines[s].text.as_str()) {
            let mut l = clone_line(&self.lines[s]);
            l.text = joined;
            l.modified = true;
            self.lines[s] = l;
        }
        proof {
            crate::model::lemma_origins_congruent(models(self.lines@), pre, s + 1, e as int);
        }
        add_origins(&self.lines, s + 1, e + 1, &mut self.deleted);
        let empty: Vec<Line> = Vec::new();
        let nl = spliced(&self.lines, s + 1, e + 1, &empty);
        self.lines = nl;
        proof {
            assert(models(empty@) =~= Seq::<LineModel>::empty());
            let spec_lines = crate::model::join_range_spec(old(self).buf(), start as int, end as int)
                .unwrap().lines;
            assert(models(self.lines@) =~= spec_lines);
            crate::laws::lemma_join_range(old(self).buf(), start as int, end as int);
        }
        Ok(())
    }

    /// Prepend `levels * 4` spaces to every line in range.
    fn indent_range(&mut self, start: usize, end: usize, levels: usize) -> (r: Result<
        (),
        EditError,
    >)
        requires
            old(self).wf(),
        ensures
            final(self).wf(),
            match r {
                Ok(_) => crate::model::indent_spec(
                    old(self).buf(),
                    start as int,
                    end as int,
                    levels as int,
                ) == Some(final(self).buf()),
                Err(_) => crate::model::indent_spec(
                    old(self).buf(),
                    start as int,
                    end as int,
                    levels as int,
                ) is None,
            },
    {
        match self.resolve_range(start, end) {
            Err(e) => {
                return Err(e);
            },
            Ok(_) => {},
        }
        if levels == 0 {
            return Ok(());
        }
        let prefix = make_indent(levels);
        let ghost target = crate::model::indent_spec(
            old(self).buf(),
            start as int,
            end as int,
            levels as int,
        ).unwrap().lines;
        let mut idx = start - 1;
        while idx < end
            invariant
                start - 1 <= idx <= end <= self.lines@.len(),
                1 <= start,
                levels >= 1,
                prefix@ == crate::model::spaces((4 * levels) as nat),
                self.lines@.len() == old(self).lines@.len(),
                self.deleted@ == old(self).deleted@,
                target == crate::model::indent_spec(
                    old(self).buf(),
                    start as int,
                    end as int,
                    levels as int,
                ).unwrap().lines,
                target.len() == self.lines@.len(),
                forall|k: int| 0 <= k < idx ==> models(self.lines@)[k] == target[k],
                forall|k: int|
                    idx <= k < self.lines@.len() ==> models(self.lines@)[k] == models(
                        old(self).lines@,
                    )[k],
            decreases end - idx,
        {
            let nt = prefix.clone().concat(self.lines[idx].text.as_str());
            let mut l = clone_line(&self.lines[idx]);
            l.text = nt;
            l.modified = true;
            proof {
                assert(target[idx as int] == crate::model::indented_line(
                    models(old(self).lines@)[idx as int],
                    levels as int,
                ));
            }
            self.lines[idx] = l;
            proof {
                assert(models(self.lines@)[idx as int] == target[idx as int]);
            }
            idx = idx + 1;
        }
        proof {
            assert(models(self.lines@) =~= target);
        }
        Ok(())
    }

    /// Strip up to `levels` levels of leading whitespace from every line
    /// in range.
    fn dedent_range(&mut self, start: usize, end: usize, levels: usize) -> (r: Result<
        (),
        EditError,
    >)
        requires
            old(self).wf(),
        ensures
            final(self).wf(),
            match r {
                Ok(_) => crate::model::dedent_spec(
                    old(self).buf(),
                    start as int,
                    end as int,
                    levels as int,
                ) == Some(final(self).buf()),
                Err(_) => crate::model::dedent_spec(
                    old(self).buf(),
                    start as int,
                    end as int,
                    levels as int,
                ) is None,
            },
    {
        match self.resolve_range(start, end) {
            Err(e) => {
                return Err(e);
            },
            Ok(_) => {},
        }
        if levels == 0 {
            return Ok(());
        }
        let ghost target = crate::model::dedent_spec(
            old(self).buf(),
            start as int,
            end as int,
            levels as int,
        ).unwrap().lines;
        let mut idx = start - 1;
        while idx < end
            invariant
                start - 1 <= idx <= end <= self.lines@.len(),
                1 <= start,
                levels >= 1,
                self.lines@.len() == old(self).lines@.len(),
                self.deleted@ == old(self).deleted@,
                target == crate::model::dedent_spec(
                    old(self).buf(),
                    start as int,
                    end as int,
                    levels as int,
                ).unwrap().lines,
                target.len() == self.lines@.len(),
                forall|k: int| 0 <= k < idx ==> models(self.lines@)[k] == target[k],
                forall|k: int|
                    idx <= k < self.lines@.len() ==> models(self.lines@)[k] == models(
                        old(self).lines@,
                    )[k],
            decreases end - idx,
        {
            let nt = dedent(self.lines[idx].text.as_str(), levels);
            if !crate::chars::str_eq(nt.as_str(), self.lines[idx].text.as_str()) {
                let mut l = clone_line(&self.lines[idx]);
                l.text = nt;
                l.modified = true;
                self.lines[idx] = l;
            }
            idx = idx + 1;
        }
        proof {
            assert(models(self.lines@) =~= target);
        }
        Ok(())
    }

    /// Substitute over the range; a line is touched only when its text
    /// actually changes.
    fn substitute_range(&mut self, start: usize, end: usize, sub: &Subst) -> (r: Result<
        (),
        EditError,
    >)
        requires
            old(self).wf(),
        ensures
            final(self).wf(),
            match r {
                Ok(_) => crate::model::substitute_spec(
                    old(self).buf(),
                    start as int,
                    end as int,
                    sub.pattern@,
                    sub.replacement@,
                    sub.global,
                    sub.case_insensitive,
                ) == Some(final(self).buf()),
                Err(_) => crate::model::substitute_spec(
                    old(self).buf(),
                    start as int,
                    end as int,
                    sub.pattern@,
                    sub.replacement@,
                    sub.global,
                    sub.case_insensitive,
                ) is None,
            },
            r is Ok && !sub.global ==> forall|i: int|
                0 <= i < old(self).buf().lines.len() && !crate::pattern::regex_matches(
                    sub.pattern@,
                    sub.case_insensitive,
                    (#[trigger] old(self).buf().lines[i]).text,
                ) ==> final(self).buf().lines[i] == old(self).buf().lines[i],
    {
        match self.resolve_range(start, end) {
            Err(e) => {
                return Err(e);
            },
            Ok(_) => {},
        }
        if !crate::pattern::regex_ok(sub.pattern.as_str(), sub.case_insensitive) {
            return Err(EditError::from_text("invalid regex"));
        }
        let ghost target = crate::model::substitute_spec(
            old(self).buf(),
            start as int,
            end as int,
            sub.pattern@,
            sub.replacement@,
            sub.global,
            sub.case_insensitive,
        ).unwrap().lines;
        let mut idx = start - 1;
        while idx < end
            invariant
                start - 1 <= idx <= end <= self.lines@.len(),
                1 <= start,
                crate::pattern::regex_builds(sub.pattern@, sub.case_insensitive),
                self.lines@.len() == old(self).lines@.len(),
                self.deleted@ == old(self).deleted@,
                target == crate::model::substitute_spec(
                    old(self).buf(),
                    start as int,
                    end as int,
                    sub.pattern@,
                    sub.replacement@,
                    sub.global,
                    sub.case_insensitive,
                ).unwrap().lines,
                target.len() == self.lines@.len(),
                forall|k: int| 0 <= k < idx ==> models(self.lines@)[k] == target[k],
                forall|k: int|
                    idx <= k < self.lines@.len() ==> models(self.lines@)[k] == models(
                        old(self).lines@,
                    )[k],
            decreases end - idx,
        {
            let repl: Option<String> = if sub.global {
                Some(
                    crate::pattern::regex_replace_all(
                        sub.pattern.as_str(),
                        sub.case_insensitive,
                        sub.replacement.as_str(),
                        self.lines[idx].text.as_str(),
                    ),
                )
            } else if crate::pattern::regex_is_match(
                sub.pattern.as_str(),
                sub.case_insensitive,
                self.lines[idx].text.as_str(),
            ) {
                Some(
                    crate::pattern::regex_replace_first(
                        sub.pattern.as_str(),
                        sub.case_insensitive,
                        sub.replacement.as_str(),
                        self.lines[idx].text.as_str(),
                    ),
                )
            } else {
                None
            };
            match repl {
                Some(nt) => {
                    if !crate::chars::str_eq(nt.as_str(), self.lines[idx].text.as_str()) {
                        let mut l = clone_line(&self.lines[idx]);
                        l.text = nt;
                        l.modified = true;
                        self.lines[idx] = l;
                    }
                },
                None => {},
            }
            proof {
                assert(models(self.lines@)[idx as int] == target[idx as int]);
            }
            idx = idx + 1;
        }
        proof {
            assert(models(self.lines@) =~= target);
        }
        Ok(())
    }
}

proof fn lemma_models_insert(s: Seq<Line>, pos: int, l: Line)
    requires
        0 <= pos <= s.len(),
    ensures
        models(s.insert(pos, l)) =~= models(s).insert(pos, l@),
{
    s.insert_ensures(pos, l);
    models(s).insert_ensures(pos, l@);
}

proof fn lemma_insert_sorted_at(l: LineModel, s: Seq<LineModel>, pos: int)
    requires
        0 <= pos <= s.len(),
        forall|k: int| 0 <= k < pos ==> crate::chars::lex_le(s[k].text, l.text),
        pos == s.len() || !crate::chars::lex_le(s[pos].text, l.text),
    ensures
        crate::model::insert_sorted(l, s) == s.take(pos) + seq![l] + s.skip(pos),
    decreases pos,
{
    if pos == 0 {
        if s.len() == 0 {
            assert(crate::model::insert_sorted(l, s) =~= s.take(0) + seq![l] + s.skip(0));
        } else {
            assert(!crate::chars::lex_le(s[0].text, l.text));
            assert(crate::model::insert_sorted(l, s) =~= s.take(0) + seq![l] + s.skip(0));
        }
    } else {
        assert(crate::chars::lex_le(s[0].text, l.text));
        let t = s.skip(1);
        assert(forall|k: int| 0 <= k < pos - 1 ==> t[k] == s[k + 1]);
        if pos - 1 < t.len() {
            assert(t[pos - 1] == s[pos]);
        }
        lemma_insert_sorted_at(l, t, pos - 1);
        assert(seq![s[0]] + (t.take(pos - 1) + seq![l] + t.skip(pos - 1)) =~= s.take(pos)
            + seq![l] + s.skip(pos));
    }
}

/// Whether two line vectors carry the same texts.
fn texts_equal(a: &Vec<Line>, b: &Vec<Line>) -> (r: bool)
    ensures
        r == (crate::model::texts_of(models(a@)) == crate::model::texts_of(models(b@))),
{
    if a.len() != b.len() {
        proof {
            assert(crate::model::texts_of(models(a@)).len() != crate::model::texts_of(
                models(b@),
            ).len());
        }
        return false;
    }
    let n = a.len();
    let mut i: usize = 0;
    while i < n
        invariant
            i <= n,
            n == a@.len(),
            n == b@.len(),
            forall|k: int|
                0 <= k < i ==> crate::model::texts_of(models(a@))[k] == crate::model::texts_of(
                    models(b@),
                )[k],
        decreases n - i,
    {
        if !crate::chars::str_eq(a[i].text.as_str(), b[i].text.as_str()) {
            proof {
                assert(crate::model::texts_of(models(a@))[i as int] != crate::model::texts_of(
                    models(b@),
                )[i as int]);
            }
            return false;
        }
        i = i + 1;
    }
    proof {
        assert(crate::model::texts_of(models(a@)) =~= crate::model::texts_of(models(b@)));
    }
    true
}

impl Engine {
    /// Move `[start, end]` after `dest`.
    fn move_range(&mut self, start: usize, end: usize, dest: usize) -> (r: Result<(), EditError>)
        requires
            old(self).wf(),
        ensures
            final(self).wf(),
            match r {
                Ok(_) => crate::model::move_spec(
                    old(self).buf(),
                    start as int,
                    end as int,
                    dest as int,
                ) == Some(final(self).buf()),
                Err(_) => crate::model::move_spec(
                    old(self).buf(),
                    start as int,
                    end as int,
                    dest as int,
                ) is None,
            },
            r is Err ==> final(self).buf() == old(self).buf(),
            r is Ok ==> final(self).buf().deleted == old(self).buf().deleted,
            r is Ok ==> ({
                let at = if (dest as int) < start as int {
                    dest as int
                } else {
                    dest as int - (end - start + 1)
                };
                forall|i: int|
                    0 <= i <= end - start ==> (#[trigger] final(self).buf().lines[at + i])
                        == crate::model::moved_line(old(self).buf().lines[start - 1 + i])
            }),
    {
        match self.resolve_range(start, end) {
            Err(e) => {
                return Err(e);
            },
            Ok(_) => {},
        }
        if dest == 0 {
            return Err(EditError::from_text("destination 0 is not allowed"));
        }
        if dest > self.lines.len() {
            return Err(
                EditError::new(
                    String::from_str("destination out of range: ").concat(
                        dec_string(dest).as_str(),
                    ).concat(" > ").concat(dec_string(self.lines.len()).as_str()),
                ),
            );
        }
        if dest >= start && dest <= end {
            return Err(EditError::from_text("destination is within moved range"));
        }
        let s = start - 1;
        let ghost segspec = Seq::new(
            (end - start + 1) as nat,
            |i: int| crate::model::moved_line(models(self.lines@)[s + i]),
        );
        let mut seg: Vec<Line> = Vec::new();
        let mut i = s;
        while i < end
            invariant
                s <= i <= end <= self.lines@.len(),
                s == start - 1,
                1 <= start <= end,
                segspec == Seq::new(
                    (end - start + 1) as nat,
                    |k: int| crate::model::moved_line(models(self.lines@)[s + k]),
                ),
                models(seg@) =~= segspec.take(i - s),
            decreases end - i,
        {
            let mut l = clone_line(&self.lines[i]);
            l.modified = true;
            proof {
                assert(models(seg@.push(l)) =~= models(seg@).push(l@));
                assert(segspec.take(i - s + 1) =~= segspec.take(i - s).push(segspec[i - s]));
            }
            seg.push(l);
            i = i + 1;
        }
        proof {
            assert(models(seg@) =~= segspec);
        }
        let empty: Vec<Line> = Vec::new();
        let remain = spliced(&self.lines, s, end, &empty);
        let at: usize = if dest < start {
            dest
        } else {
            dest - (end - start + 1)
        };
        proof {
            assert(models(empty@) =~= Seq::<LineModel>::empty());
            assert(models(remain@) =~= models(self.lines@).take(s as int) + models(
                self.lines@,
            ).skip(end as int));
        }
        let nl = spliced(&remain, at, at, &seg);
        self.lines = nl;
        proof {
            let spec_lines = crate::model::move_spec(
                old(self).buf(),
                start as int,
                end as int,
                dest as int,
            ).unwrap().lines;
            assert(models(self.lines@) =~= spec_lines);
            crate::laws::lemma_move_marks_and_keeps(
                old(self).buf(),
                start as int,
                end as int,
                dest as int,
            );
        }
        Ok(())
    }

    /// Copy `[start, end]` after `dest`.
    fn copy_range(&mut self, start: usize, end: usize, dest: usize) -> (r: Result<(), EditError>)
        requires
            old(self).wf(),
        ensures
            final(self).wf(),
            match r {
                Ok(_) => crate::model::copy_spec(
                    old(self).buf(),
                    start as int,
                    end as int,
                    dest as int,
                ) == Some(final(self).buf()),
                Err(_) => crate::model::copy_spec(
                    old(self).buf(),
                    start as int,
                    end as int,
                    dest as int,
                ) is None,
            },
    {
        match self.resolve_range(start, end) {
            Err(e) => {
                return Err(e);
            },
            Ok(_) => {},
        }
        if dest == 0 {
            return Err(EditError::from_text("destination 0 is not allowed"));
        }
        if dest > self.lines.len() {
            return Err(
                EditError::new(
                    String::from_str("destination out of range: ").concat(
                        dec_string(dest).as_str(),
                    ).concat(" > ").concat(dec_string(self.lines.len()).as_str()),
                ),
            );
        }
        let s = start - 1;
        let ghost segspec = Seq::new(
            (end - start + 1) as nat,
            |i: int| crate::model::new_line(models(self.lines@)[s + i].text),
        );
        let mut seg: Vec<Line> = Vec::new();
        let mut i = s;
        while i < end
            invariant
                s <= i <= end <= self.lines@.len(),
                s == start - 1,
                1 <= start <= end,
                segspec == Seq::new(
                    (end - start + 1) as nat,
                    |k: int| crate::model::new_line(models(self.lines@)[s + k].text),
                ),
                models(seg@) =~= segspec.take(i - s),
            decreases end - i,
        {
            let l = Line {
                text: self.lines[i].text.clone(),
                origin: None,
                modified: true,
                global_mark: false,
            };
            proof {
                assert(models(seg@.push(l)) =~= models(seg@).push(l@));
                assert(segspec.take(i - s + 1) =~= segspec.take(i - s).push(segspec[i - s]));
            }
            seg.push(l);
            i = i + 1;
        }
        proof {
            assert(models(seg@) =~= segspec);
        }
        let nl = spliced(&self.lines, dest, dest, &seg);
        self.lines = nl;
        proof {
            let spec_lines = crate::model::copy_spec(
                old(self).buf(),
                start as int,
                end as int,
                dest as int,
            ).unwrap().lines;
            assert(models(self.lines@) =~= spec_lines);
        }
        Ok(())
    }

    /// Stable sort of the addressed subrange, by ordinal text order.
    fn sort_range(&mut self, start: usize, end: usize) -> (r: Result<(), EditError>)
        requires
            old(self).wf(),
        ensures
            final(self).wf(),
            match r {
                Ok(_) => crate::model::sort_spec(old(self).buf(), start as int, end as int)
                    == Some(final(self).buf()),
                Err(_) => crate::model::sort_spec(old(self).buf(), start as int, end as int)
                    is None,
            },
    {
        match self.resolve_range(start, end) {
            Err(e) => {
                return Err(e);
            },
            Ok(_) => {},
        }
        if start == end {
            return Ok(());
        }
        let s = start - 1;
        let ghost segspec = models(self.lines@).subrange(s as int, end as int);
        let mut seg: Vec<Line> = Vec::new();
        let mut i = s;
        while i < end
            invariant
                s <= i <= end <= self.lines@.len(),
                segspec == models(self.lines@).subrange(s as int, end as int),
                s < end,
                models(seg@) =~= segspec.take(i - s),
            decreases end - i,
        {
            let l = clone_line(&self.lines[i]);
            proof {
                assert(models(seg@.push(l)) =~= models(seg@).push(l@));
                assert(segspec.take(i - s + 1) =~= segspec.take(i - s).push(segspec[i - s]));
            }
            seg.push(l);
            i = i + 1;
        }
        proof {
            assert(models(seg@) =~= segspec);
        }
        let mut sorted: Vec<Line> = Vec::new();
        let mut j: usize = 0;
        while j < seg.len()
            invariant
                j <= seg@.len(),
                models(sorted@) == crate::model::sort_lines(models(seg@).take(j as int)),
                sorted@.len() == j,
            decreases seg@.len() - j,
        {
            let l = clone_line(&seg[j]);
            let mut pos: usize = 0;
            while pos < sorted.len() && crate::chars::str_lex_le(
                sorted[pos].text.as_str(),
                l.text.as_str(),
            )
                invariant
                    pos <= sorted@.len(),
                    l@ == seg@[j as int]@,
                    j < seg@.len(),
                    forall|k: int|
                        0 <= k < pos ==> crate::chars::lex_le(
                            models(sorted@)[k].text,
                            l@.text,
                        ),
                decreases sorted@.len() - pos,
            {
                pos = pos + 1;
            }
            let ghost presorted = models(sorted@);
            proof {
                lemma_insert_sorted_at(l@, presorted, pos as int);
                lemma_models_insert(sorted@, pos as int, l);
                assert(models(seg@).take(j + 1).drop_last() =~= models(seg@).take(j as int));
                assert(models(seg@).take(j + 1).last() == l@);
                assert(presorted.insert(pos as int, l@) =~= presorted.take(pos as int) + seq![l@]
                    + presorted.skip(pos as int));
            }
            sorted.insert(pos, l);
            j = j + 1;
        }
        proof {
            assert(models(seg@).take(seg@.len() as int) =~= models(seg@));
        }
        let changed = !texts_equal(&seg, &sorted);
        if changed {
            let ghost presorted = models(sorted@);
            let mut m: usize = 0;
            while m < sorted.len()
                invariant
                    m <= sorted@.len(),
                    sorted@.len() == presorted.len(),
                    forall|k: int|
                        0 <= k < m ==> models(sorted@)[k] == crate::model::mark_all_modified(
                            presorted,
                        )[k],
                    forall|k: int| m <= k < sorted@.len() ==> models(sorted@)[k] == presorted[k],
                decreases sorted@.len() - m,
            {
                let mut l = clone_line(&sorted[m]);
                l.modified = true;
                sorted[m] = l;
                m = m + 1;
            }
            proof {
                assert(models(sorted@) =~= crate::model::mark_all_modified(presorted));
            }
        }
        let nl = spliced(&self.lines, s, end, &sorted);
        self.lines = nl;
        proof {
            let spec_lines = crate::model::sort_spec(old(self).buf(), start as int, end as int)
                .unwrap().lines;
            assert(models(self.lines@) =~= spec_lines);
        }
        Ok(())
    }
}

impl Engine {
    /// The global command: mark the selected lines, walk the buffer
    /// applying the inner operation to each marked position without
    /// advancing past it, then clear any remaining marks.
    fn global(
        &mut self,
        start: usize,
        end: usize,
        invert: bool,
        pattern: &str,
        subcmd: &Subcommand,
    ) -> (r: Result<(), EditError>)
        requires
            old(self).wf(),
        ensures
            final(self).wf(),
            match r {
                Ok(_) => crate::model::global_spec(
                    old(self).buf(),
                    start as int,
                    end as int,
                    invert,
                    pattern@,
                    *subcmd,
                ) == Some(final(self).buf()),
                Err(_) => crate::model::global_spec(
                    old(self).buf(),
                    start as int,
                    end as int,
                    invert,
                    pattern@,
                    *subcmd,
                ) is None,
            },
        decreases *subcmd, 1int,
    {
        match self.resolve_range(start, end) {
            Err(e) => {
                return Err(e);
            },
            Ok(_) => {},
        }
        if !crate::pattern::regex_ok(pattern, false) {
            return Err(EditError::from_text("invalid regex"));
        }
        let ghost markedspec = Seq::new(
            models(old(self).lines@).len(),
            |i: int|
                LineModel {
                    mark: (start - 1 <= i <= end - 1) && (crate::pattern::regex_matches(
                        pattern@,
                        false,
                        models(old(self).lines@)[i].text,
                    ) != invert),
                    ..models(old(self).lines@)[i]
                },
        );
        let mut i: usize = 0;
        while i < self.lines.len()
            invariant
                i <= self.lines@.len(),
                self.lines@.len() == old(self).lines@.len(),
                self.deleted@ == old(self).deleted@,
                1 <= start <= end <= self.lines@.len(),
                crate::pattern::regex_builds(pattern@, false),
                markedspec == Seq::new(
                    models(old(self).lines@).len(),
                    |k: int|
                        LineModel {
                            mark: (start - 1 <= k <= end - 1) && (crate::pattern::regex_matches(
                                pattern@,
                                false,
                                models(old(self).lines@)[k].text,
                            ) != invert),
                            ..models(old(self).lines@)[k]
                        },
                ),
                forall|k: int| 0 <= k < i ==> models(self.lines@)[k] == markedspec[k],
                forall|k: int|
                    i <= k < self.lines@.len() ==> models(self.lines@)[k] == models(
                        old(self).lines@,
                    )[k],
            decreases self.lines@.len() - i,
        {
            let in_range = i + 1 >= start && i + 1 <= end;
            let sel = if in_range {
                let m = crate::pattern::regex_is_match(
                    pattern,
                    false,
                    self.lines[i].text.as_str(),
                );
                if invert {
                    !m
                } else {
                    m
                }
            } else {
                false
            };
            let mut l = clone_line(&self.lines[i]);
            l.global_mark = sel;
            self.lines[i] = l;
            proof {
                assert(models(self.lines@)[i as int] == markedspec[i as int]);
            }
            i = i + 1;
        }
        proof {
            assert(models(self.lines@) =~= markedspec);
        }
        let ghost marked = self.buf();
        let ghost op = *subcmd;
        proof {
            assert(crate::model::global_spec(
                old(self).buf(),
                start as int,
                end as int,
                invert,
                pattern@,
                *subcmd,
            ) == (match crate::model::run_global(marked, 0, op) {
                None => None::<BufModel>,
                Some(b) => Some(
                    BufModel { lines: crate::model::clear_marks(b.lines), deleted: b.deleted },
                ),
            }));
        }
        let mut idx: usize = 0;
        while idx < self.lines.len()
            invariant
                self.wf(),
                crate::model::run_global(marked, 0, op) == crate::model::run_global(
                    self.buf(),
                    idx as int,
                    op,
                ),
                op == *subcmd,
                crate::model::global_spec(
                    old(self).buf(),
                    start as int,
                    end as int,
                    invert,
                    pattern@,
                    *subcmd,
                ) == (match crate::model::run_global(marked, 0, op) {
                    None => None::<BufModel>,
                    Some(b) => Some(
                        BufModel {
                            lines: crate::model::clear_marks(b.lines),
                            deleted: b.deleted,
                        },
                    ),
                }),
            decreases crate::model::mark_count(models(self.lines@)), (if idx
                <= self.lines@.len() {
                self.lines@.len() - idx
            } else {
                0int
            }),
        {
            if self.lines[idx].global_mark {
                let ghost prebuf = self.buf();
                let mut l = clone_line(&self.lines[idx]);
                l.global_mark = false;
                self.lines[idx] = l;
                proof {
                    assert(l@ == crate::model::unmark(prebuf.lines[idx as int]));
                    assert(self.buf().lines == prebuf.lines.update(
                        idx as int,
                        crate::model::unmark(prebuf.lines[idx as int]),
                    ));
                    assert(self.buf().deleted == prebuf.deleted);
                    crate::model::lemma_mark_count_update(
                        prebuf.lines,
                        idx as int,
                        crate::model::unmark(prebuf.lines[idx as int]),
                    );
                }
                let ghost buf2 = self.buf();
                let line_no = idx + 1;
                match self.apply_subcommand(line_no, line_no, false, subcmd) {
                    Err(e) => {
                        proof {
                            assert(crate::model::run_global(prebuf, idx as int, op) is None);
                        }
                        return Err(e);
                    },
                    Ok(_) => {
                        proof {
                            crate::model::lemma_apply_op_mark_count(
                                buf2,
                                line_no as int,
                                line_no as int,
                                false,
                                op,
                            );
                            assert(crate::model::mark_count(models(self.lines@))
                                < crate::model::mark_count(prebuf.lines));
                            assert(crate::model::run_global(prebuf, idx as int, op)
                                == crate::model::run_global(self.buf(), idx as int, op));
                        }
                    },
                }
            } else {
                proof {
                    assert(crate::model::run_global(self.buf(), idx as int, op)
                        == crate::model::run_global(self.buf(), idx + 1, op));
                }
                idx = idx + 1;
            }
        }
        proof {
            assert(crate::model::run_global(marked, 0, op) == Some(self.buf()));
        }
        let ghost walked = self.buf();
        let mut m: usize = 0;
        while m < self.lines.len()
            invariant
                m <= self.lines@.len(),
                self.lines@.len() == walked.lines.len(),
                self.deleted@.to_set() == walked.deleted,
                strictly_ascending(self.deleted@),
                crate::model::global_spec(
                    old(self).buf(),
                    start as int,
                    end as int,
                    invert,
                    pattern@,
                    *subcmd,
                ) == Some(
                    BufModel {
                        lines: crate::model::clear_marks(walked.lines),
                        deleted: walked.deleted,
                    },
                ),
                forall|k: int|
                    0 <= k < m ==> models(self.lines@)[k] == crate::model::clear_marks(
                        walked.lines,
                    )[k],
                forall|k: int| m <= k < self.lines@.len() ==> models(self.lines@)[k]
                    == walked.lines[k],
            decreases self.lines@.len() - m,
        {
            let mut l = clone_line(&self.lines[m]);
            l.global_mark = false;
            self.lines[m] = l;
            m = m + 1;
        }
        proof {
            assert(models(self.lines@) =~= crate::model::clear_marks(walked.lines));
        }
        Ok(())
    }

    /// Apply one operation to the addressed range.
    fn apply_subcommand(
        &mut self,
        start: usize,
        end: usize,
        has_comma: bool,
        sub: &Subcommand,
    ) -> (r: Result<(), EditError>)
        requires
            old(self).wf(),
        ensures
            final(self).wf(),
            match r {
                Ok(_) => crate::model::apply_op(
                    old(self).buf(),
                    start as int,
                    end as int,
                    has_comma,
                    *sub,
                ) == Some(final(self).buf()),
                Err(_) => crate::model::apply_op(
                    old(self).buf(),
                    start as int,
                    end as int,
                    has_comma,
                    *sub,
                ) is None,
            },
        decreases *sub, 0int,
    {
        match sub {
            Subcommand::Delete => self.delete_range(start, end),
            Subcommand::Substitute(s) => self.substitute_range(start, end, s),
            Subcommand::Append(text) => self.append_after(start, end, text),
            Subcommand::Insert(text) => self.insert_before(start, text),
            Subcommand::Change(text) => self.change_range(start, end, text),
            Subcommand::Join => if has_comma {
                self.join_range(start, end)
            } else {
                self.join_with_next(start)
            },
            Subcommand::Move { dest } => self.move_range(start, end, dest.lineno),
            Subcommand::Copy { dest } => self.copy_range(start, end, dest.lineno),
            Subcommand::Global { invert, pattern, cmd } => self.global(
                start,
                end,
                *invert,
                pattern.as_str(),
                &**cmd,
            ),
            Subcommand::Indent { levels } => self.indent_range(start, end, *levels),
            Subcommand::Dedent { levels } => self.dedent_range(start, end, *levels),
            Subcommand::Sort => self.sort_range(start, end),
            Subcommand::Print => self.print_range(start, end),
        }
    }

    /// Apply one whole command.
    fn apply_command(&mut self, cmd: &Command) -> (r: Result<(), EditError>)
        requires
            old(self).wf(),
        ensures
            final(self).wf(),
            match r {
                Ok(_) => crate::model::apply_command_spec(old(self).buf(), *cmd) == Some(
                    final(self).buf(),
                ),
                Err(_) => crate::model::apply_command_spec(old(self).buf(), *cmd) is None,
            },
    {
        let start = cmd.addr1.lineno;
        let end = match cmd.addr2 {
            Some(a) => a.lineno,
            None => start,
        };
        if start > end && start != 0 {
            return Err(
                EditError::new(
                    String::from_str("invalid range: ").concat(dec_string(start).as_str()).concat(
                        "..",
                    ).concat(dec_string(end).as_str()),
                ),
            );
        }
        self.apply_subcommand(start, end, cmd.has_comma, &cmd.cmd)
    }
}

/// The whitespace-aware join of two line texts.
fn join_strings(a: &str, b: &str) -> (r: String)
    ensures
        r@ == crate::model::join_texts(a@, b@),
{
    let na = a.unicode_len();
    let nb = b.unicode_len();
    if na == 0 {
        return String::from_str(b);
    }
    if nb == 0 {
        return String::from_str(a);
    }
    let a_ws = crate::chars::whitespace_char(a.get_char(na - 1));
    let b_ws = crate::chars::whitespace_char(b.get_char(0));
    if a_ws || b_ws {
        String::from_str(a).concat(b)
    } else {
        proof {
            reveal_strlit(" ");
        }
        let r = String::from_str(a).concat(" ").concat(b);
        proof {
            assert(r@ =~= a@ + seq![' '] + b@);
        }
        r
    }
}

/// `levels * 4` space characters.
fn make_indent(levels: usize) -> (p: String)
    ensures
        p@ == crate::model::spaces((4 * levels) as nat),
{
    let mut p = String::new();
    proof {
        assert(p@ =~= crate::model::spaces(0));
    }
    let mut i: usize = 0;
    while i < levels
        invariant
            i <= levels,
            p@ == crate::model::spaces((4 * i) as nat),
        decreases levels - i,
    {
        p = p.concat("    ");
        proof {
            reveal_strlit("    ");
            assert("    "@ =~= crate::model::spaces(4));
            assert(crate::model::spaces((4 * i) as nat) + crate::model::spaces(4)
                =~= crate::model::spaces((4 * (i + 1)) as nat));
        }
        i = i + 1;
    }
    p
}

/// Result of applying an edit script: the final lines, their formatted
/// addresses, the final positions that were modified, and the original
/// positions that were deleted.
#[derive(Debug, Clone, PartialEq, Eq)]
pub struct EditResult {
    /// Full edited content, split into lines (without trailing newlines).
    pub lines: Vec<String>,
    /// The lnhash address of every final line, such as `3|a3f2|`.
    pub hashes: Vec<String>,
    /// New-file 1-based line numbers that are new, changed, reordered or
    /// explicitly printed, ascending.
    pub modified: Vec<usize>,
    /// Old-file 1-based line numbers that were removed, ascending.
    pub deleted: Vec<usize>,
}

/// Check one address against the pristine input: in bounds and carrying
/// the line's current hash.
fn verify_lnhash_basic(input_lines: &Vec<String>, addr: LnHash) -> (r: Result<(), EditError>)
    ensures
        r is Ok <==> crate::model::addr_ok_basic(views_of(input_lines@), addr),
{
    if addr.lineno == 0 {
        return Err(EditError::from_text("address 0 is not allowed here"));
    }
    if addr.lineno > input_lines.len() {
        return Err(
            EditError::new(
                String::from_str("address out of range: ").concat(
                    dec_string(addr.lineno).as_str(),
                ).concat(" > ").concat(dec_string(input_lines.len()).as_str()),
            ),
        );
    }
    let actual = line_hash_u16(input_lines[addr.lineno - 1].as_str());
    proof {
        assert(views_of(input_lines@)[addr.lineno - 1] == input_lines@[addr.lineno - 1]@);
    }
    if actual != addr.hash {
        return Err(
            EditError::new(
                String::from_str("stale lnhash at line ").concat(
                    dec_string(addr.lineno).as_str(),
                ).concat(": expected ").concat(hex4_string(addr.hash).as_str()).concat(
                    ", got ",
                ).concat(hex4_string(actual).as_str()),
            ),
        );
    }
    Ok(())
}

/// Check a command's own address, allowing the `0` sentinel only for
/// Insert/Append with hash `0`.
fn verify_lnhash(input_lines: &Vec<String>, addr: LnHash, cmd: &Subcommand) -> (r: Result<
    (),
    EditError,
>)
    ensures
        r is Ok <==> crate::model::addr_ok(views_of(input_lines@), addr, *cmd),
{
    if addr.lineno == 0 {
        if addr.hash != 0 {
            return Err(EditError::from_text("0|0000| must have hash 0000"));
        }
        match cmd {
            Subcommand::Append(_) => Ok(()),
            Subcommand::Insert(_) => Ok(()),
            _ => Err(EditError::from_text("0|0000| is only valid with i or a")),
        }
    } else {
        verify_lnhash_basic(input_lines, addr)
    }
}

/// Check the destination addresses nested in the operation, recursively
/// through Global.
fn verify_subcommand_refs(input_lines: &Vec<String>, cmd: &Subcommand) -> (r: Result<
    (),
    EditError,
>)
    ensures
        r is Ok <==> crate::model::refs_ok(views_of(input_lines@), *cmd),
    decreases *cmd,
{
    match cmd {
        Subcommand::Move { dest } => verify_lnhash_basic(input_lines, *dest),
        Subcommand::Copy { dest } => verify_lnhash_basic(input_lines, *dest),
        Subcommand::Global { cmd, .. } => verify_subcommand_refs(input_lines, &**cmd),
        _ => Ok(()),
    }
}

/// The one-shot validation pass: every address referenced anywhere in
/// the command sequence is certified against the pristine input buffer.
fn verify_all(input_lines: &Vec<String>, commands: &[Command]) -> (r: Result<(), EditError>)
    ensures
        r is Ok <==> crate::model::validate_spec(views_of(input_lines@), commands@),
{
    let mut k: usize = 0;
    while k < commands.len()
        invariant
            k <= commands@.len(),
            forall|j: int|
                0 <= j < k ==> crate::model::cmd_addrs_ok(
                    views_of(input_lines@),
                    #[trigger] commands@[j],
                ),
        decreases commands@.len() - k,
    {
        let c = &commands[k];
        match verify_lnhash(input_lines, c.addr1, &c.cmd) {
            Err(e) => {
                proof {
                    assert(!crate::model::cmd_addrs_ok(views_of(input_lines@), commands@[
                        k as int
                    ]));
                }
                return Err(e);
            },
            Ok(_) => {},
        }
        match c.addr2 {
            Some(a2) => {
                match verify_lnhash(input_lines, a2, &c.cmd) {
                    Err(e) => {
                        proof {
                            assert(!crate::model::cmd_addrs_ok(views_of(input_lines@), commands@[
                                k as int
                            ]));
                        }
                        return Err(e);
                    },
                    Ok(_) => {},
                }
            },
            None => {},
        }
        match verify_subcommand_refs(input_lines, &c.cmd) {
            Err(e) => {
                proof {
                    assert(!crate::model::cmd_addrs_ok(views_of(input_lines@), commands@[
                        k as int
                    ]));
                }
                return Err(e);
            },
            Ok(_) => {},
        }
        k = k + 1;
    }
    Ok(())
}

/// Apply `commands` to `input`. Every lnhash referenced in the command
/// list is verified against the pristine input before any edit is
/// applied; the commands then run in script order over the live buffer.
/// On success the result holds exactly the final lines, their formatted
/// addresses, the ascending final positions of the modified lines, and
/// the ascending original positions of the deleted lines.
pub fn edit_text(input: &str, commands: &[Command]) -> (r: Result<EditResult, EditError>)
    ensures
        ({
            let texts = crate::chars::lines_spec(input@);
            let runr = crate::model::run_cmds(
                crate::model::init_buf(texts),
                commands@,
                0,
            );
            match r {
                Ok(res) => {
                    &&& crate::model::validate_spec(texts, commands@)
                    &&& runr is Some
                    &&& views_of(res.lines@) == crate::model::texts_of(runr.unwrap().lines)
                    &&& views_of(res.hashes@) == Seq::new(
                        runr.unwrap().lines.len(),
                        |i: int|
                            crate::lnhash::format_lnhash_spec(
                                (i + 1) as nat,
                                line_hash_spec(runr.unwrap().lines[i].text),
                            ),
                    )
                    &&& res.modified@ == crate::model::mod_positions(runr.unwrap().lines, 0)
                    &&& strictly_ascending(res.deleted@)
                    &&& res.deleted@.to_set() == runr.unwrap().deleted
                    &&& forall|o: usize|
                        res.deleted@.to_set().contains(o) ==> 1 <= o <= texts.len()
                },
                Err(_) => !crate::model::validate_spec(texts, commands@) || runr is None,
            }
        }),
{
    let input_lines = crate::chars::split_lines(input);
    let ghost texts = crate::chars::lines_spec(input@);
    let n_in = input_lines.len();
    proof {
        assert(texts.len() == n_in as int);
    }
    match verify_all(&input_lines, commands) {
        Err(e) => {
            return Err(e);
        },
        Ok(_) => {},
    }
    let mut eng = Engine::new(input_lines);
    let ghost init = eng.buf();
    let mut i: usize = 0;
    while i < commands.len()
        invariant
            i <= commands@.len(),
            eng.wf(),
            init == crate::model::init_buf(crate::chars::lines_spec(input@)),
            crate::model::run_cmds(init, commands@, 0) == crate::model::run_cmds(
                eng.buf(),
                commands@,
                i as int,
            ),
        decreases commands@.len() - i,
    {
        match eng.apply_command(&commands[i]) {
            Err(e) => {
                proof {
                    assert(crate::model::run_cmds(init, commands@, 0) is None);
                }
                return Err(e);
            },
            Ok(_) => {},
        }
        i = i + 1;
    }
    proof {
        assert(crate::model::run_cmds(init, commands@, 0) == Some(eng.buf()));
        crate::laws::lemma_deleted_origins_sound(texts, commands@);
    }
    let Engine { lines, deleted } = eng;
    let ghost fin = models(lines@);
    let n = lines.len();
    let mut out_lines: Vec<String> = Vec::new();
    let mut hashes: Vec<String> = Vec::new();
    let mut modified: Vec<usize> = Vec::new();
    let ghost hash_target = Seq::new(
        fin.len(),
        |k: int|
            crate::lnhash::format_lnhash_spec((k + 1) as nat, line_hash_spec(fin[k].text)),
    );
    let mut j: usize = 0;
    while j < n
        invariant
            j <= n,
            n == lines@.len(),
            fin == models(lines@),
            hash_target == Seq::new(
                fin.len(),
                |k: int|
                    crate::lnhash::format_lnhash_spec(
                        (k + 1) as nat,
                        line_hash_spec(fin[k].text),
                    ),
            ),
            views_of(out_lines@) =~= crate::model::texts_of(fin).take(j as int),
            views_of(hashes@) =~= hash_target.take(j as int),
            crate::model::mod_positions(fin, 0) == modified@ + crate::model::mod_positions(
                fin,
                j as int,
            ),
        decreases n - j,
    {
        let lt = lines[j].text.clone();
        let h = crate::lnhash::format_lnhash(j + 1, lines[j].text.as_str());
        proof {
            assert(views_of(out_lines@.push(lt)) =~= views_of(out_lines@).push(lt@));
            assert(crate::model::texts_of(fin).take(j + 1) =~= crate::model::texts_of(
                fin,
            ).take(j as int).push(fin[j as int].text));
            assert(views_of(hashes@.push(h)) =~= views_of(hashes@).push(h@));
            assert(hash_target.take(j + 1) =~= hash_target.take(j as int).push(
                hash_target[j as int],
            ));
        }
        out_lines.push(lt);
        hashes.push(h);
        if lines[j].modified {
            proof {
                assert(fin[j as int].modified);
                assert(crate::model::mod_positions(fin, j as int) == seq![(j + 1) as usize]
                    + crate::model::mod_positions(fin, j + 1));
                assert((modified@ + seq![(j + 1) as usize]) + crate::model::mod_positions(
                    fin,
                    j + 1,
                ) =~= modified@ + crate::model::mod_positions(fin, j as int));
            }
            modified.push(j + 1);
        } else {
            proof {
                assert(!fin[j as int].modified);
                assert(crate::model::mod_positions(fin, j as int)
                    == crate::model::mod_positions(fin, j + 1));
            }
        }
        j = j + 1;
    }
    proof {
        assert(crate::model::texts_of(fin).take(fin.len() as int) =~= crate::model::texts_of(
            fin,
        ));
        assert(hash_target.take(fin.len() as int) =~= hash_target);
        assert(crate::model::mod_positions(fin, n as int) =~= Seq::<usize>::empty());
        assert(modified@ + Seq::<usize>::empty() =~= modified@);
    }
    Ok(EditResult { lines: out_lines, hashes, modified, deleted })
}

proof fn lemma_lead_spaces_at(t: Seq<char>, i: int)
    requires
        0 <= i <= t.len(),
        forall|k: int| 0 <= k < i ==> t[k] == ' ',
        i == t.len() || t[i] != ' ',
    ensures
        crate::model::lead_spaces(t) == i,
    decreases i,
{
    if i == 0 {
    } else {
        assert(t[0] == ' ');
        let u = t.skip(1);
        assert(forall|k: int| 0 <= k < i - 1 ==> u[k] == t[k + 1]);
        if i - 1 < u.len() {
            assert(u[i - 1] == t[i]);
        }
        lemma_lead_spaces_at(u, i - 1);
    }
}

/// Count the leading spaces of a line.
fn count_lead_spaces(s: &str) -> (r: usize)
    ensures
        r == crate::model::lead_spaces(s@),
        r <= s@.len(),
{
    let n = s.unicode_len();
    let mut i: usize = 0;
    while i < n && s.get_char(i) == ' '
        invariant
            i <= n,
            n == s@.len(),
            forall|k: int| 0 <= k < i ==> s@[k] == ' ',
        decreases n - i,
    {
        i = i + 1;
    }
    proof {
        lemma_lead_spaces_at(s@, i as int);
    }
    i
}

proof fn lemma_dedent_fix(t: Seq<char>, n: nat)
    requires
        crate::model::dedent_step(t) == t,
    ensures
        crate::model::dedent_text(t, n) == t,
    decreases n,
{
    if n > 0 {
        lemma_dedent_fix(t, (n - 1) as nat);
    }
}

proof fn lemma_dedent_snoc(t: Seq<char>, n: nat)
    ensures
        crate::model::dedent_text(t, n + 1) == crate::model::dedent_step(
            crate::model::dedent_text(t, n),
        ),
    decreases n,
{
    if n == 0 {
        assert(crate::model::dedent_text(t, 1) == crate::model::dedent_text(
            crate::model::dedent_step(t),
            0,
        ));
    } else {
        lemma_dedent_snoc(crate::model::dedent_step(t), (n - 1) as nat);
        assert(crate::model::dedent_text(t, n + 1) == crate::model::dedent_text(
            crate::model::dedent_step(t),
            n,
        ));
        assert(crate::model::dedent_text(t, n) == crate::model::dedent_text(
            crate::model::dedent_step(t),
            (n - 1) as nat,
        ));
    }
}

/// Apply up to `levels` dedent steps to one line.
fn dedent(line: &str, levels: usize) -> (r: String)
    ensures
        r@ == crate::model::dedent_text(line@, levels as nat),
{
    let mut cur: String = String::from_str(line);
    let mut lv: usize = 0;
    while lv < levels
        invariant
            lv <= levels,
            cur@ == crate::model::dedent_text(line@, lv as nat),
        decreases levels - lv,
    {
        let n = cur.unicode_len();
        let ls = count_lead_spaces(cur.as_str());
        proof {
            lemma_dedent_snoc(line@, lv as nat);
        }
        if ls >= 4 {
            let t = String::from_str(cur.as_str().substring_char(4, n));
            proof {
                assert(crate::model::lead_spaces(cur@) >= 4);
                assert(t@ == cur@.skip(4));
            }
            cur = t;
        } else if n > 0 && cur.as_str().get_char(0) == '\t' {
            let t = String::from_str(cur.as_str().substring_char(1, n));
            proof {
                assert(t@ == cur@.skip(1));
            }
            cur = t;
        } else if ls > 0 {
            let t = String::from_str(cur.as_str().substring_char(ls, n));
            proof {
                assert(t@ == cur@.skip(ls as int));
            }
            cur = t;
        } else {
            proof {
                assert(cur@.skip(0) =~= cur@);
                assert(crate::model::dedent_step(cur@) == cur@);
                lemma_dedent_fix(cur@, (levels - lv) as nat);
                assert(crate::model::dedent_text(line@, levels as nat) == crate::model::dedent_text(
                    crate::model::dedent_text(line@, lv as nat),
                    (levels - lv) as nat,
                )) by {
                    lemma_dedent_split(line@, lv as nat, (levels - lv) as nat);
                }
            }
            return cur;
        }
        lv = lv + 1;
    }
    cur
}

proof fn lemma_dedent_split(t: Seq<char>, a: nat, b: nat)
    ensures
        crate::model::dedent_text(t, a + b) == crate::model::dedent_text(
            crate::model::dedent_text(t, a),
            b,
        ),
    decreases a,
{
    if a > 0 {
        lemma_dedent_split(crate::model::dedent_step(t), (a - 1) as nat, b);
    }
}

} // verus!
