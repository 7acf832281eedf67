//! Character-level utilities shared by the address codec, the command
//! parser and the edit engine: whitespace classification, trimming,
//! line splitting and lexicographic comparison.

use vstd::prelude::*;

verus! {

/// The Unicode `White_Space` code points, the set recognised by
/// `char::is_whitespace`.
pub open spec fn is_whitespace_char(c: char) -> bool {
    c == '\u{0009}' || c == '\u{000A}' || c == '\u{000B}' || c == '\u{000C}'
        || c == '\u{000D}' || c == '\u{0020}' || c == '\u{0085}' || c == '\u{00A0}'
        || c == '\u{1680}' || c == '\u{2000}' || c == '\u{2001}' || c == '\u{2002}'
        || c == '\u{2003}' || c == '\u{2004}' || c == '\u{2005}' || c == '\u{2006}'
        || c == '\u{2007}' || c == '\u{2008}' || c == '\u{2009}' || c == '\u{200A}'
        || c == '\u{2028}' || c == '\u{2029}' || c == '\u{202F}' || c == '\u{205F}'
        || c == '\u{3000}'
}

/// Decide whitespace-ness of a character.
pub fn whitespace_char(c: char) -> (b: bool)
    ensures
        b == is_whitespace_char(c),
{
    match c {
        '\u{0009}' | '\u{000A}' | '\u{000B}' | '\u{000C}' | '\u{000D}' | '\u{0020}'
        | '\u{0085}' | '\u{00A0}' | '\u{1680}' | '\u{2000}' | '\u{2001}' | '\u{2002}'
        | '\u{2003}' | '\u{2004}' | '\u{2005}' | '\u{2006}' | '\u{2007}' | '\u{2008}'
        | '\u{2009}' | '\u{200A}' | '\u{2028}' | '\u{2029}' | '\u{202F}' | '\u{205F}'
        | '\u{3000}' => true,
        _ => false,
    }
}

/// `s` with its leading whitespace removed.
pub open spec fn trim_start_spec(s: Seq<char>) -> Seq<char>
    decreases s.len(),
{
    if s.len() == 0 {
        s
    } else if is_whitespace_char(s[0]) {
        trim_start_spec(s.skip(1))
    } else {
        s
    }
}

/// `s` with its trailing whitespace removed.
pub open spec fn trim_end_spec(s: Seq<char>) -> Seq<char>
    decreases s.len(),
{
    if s.len() == 0 {
        s
    } else if is_whitespace_char(s[s.len() - 1]) {
        trim_end_spec(s.take(s.len() - 1))
    } else {
        s
    }
}

/// `s` with leading and trailing whitespace removed.
pub open spec fn trim_spec(s: Seq<char>) -> Seq<char> {
    trim_end_spec(trim_start_spec(s))
}

/// Trimming leading whitespace twice is the same as once.
pub proof fn lemma_trim_start_idem(s: Seq<char>)
    ensures
        trim_start_spec(trim_start_spec(s)) == trim_start_spec(s),
    decreases s.len(),
{
    if s.len() > 0 && is_whitespace_char(s[0]) {
        lemma_trim_start_idem(s.skip(1));
    }
}

pub proof fn lemma_trim_start_len(s: Seq<char>)
    ensures
        trim_start_spec(s).len() <= s.len(),
    decreases s.len(),
{
    if s.len() > 0 && is_whitespace_char(s[0]) {
        lemma_trim_start_len(s.skip(1));
    }
}

proof fn lemma_trim_start_skip(s: Seq<char>, i: int)
    requires
        0 <= i <= s.len(),
        forall|k: int| 0 <= k < i ==> is_whitespace_char(s[k]),
        i == s.len() || !is_whitespace_char(s[i]),
    ensures
        trim_start_spec(s) == s.skip(i),
    decreases i,
{
    if i == 0 {
        assert(s.skip(0) == s);
    } else {
        assert(is_whitespace_char(s[0]));
        let t = s.skip(1);
        lemma_trim_start_skip(t, i - 1);
        assert(t.skip(i - 1) == s.skip(i));
    }
}

proof fn lemma_trim_end_take(s: Seq<char>, j: int)
    requires
        0 <= j <= s.len(),
        forall|k: int| j <= k < s.len() ==> is_whitespace_char(s[k]),
        j == 0 || !is_whitespace_char(s[j - 1]),
    ensures
        trim_end_spec(s) == s.take(j),
    decreases s.len() - j,
{
    if j == s.len() {
        if s.len() == 0 {
            assert(s.take(0) == s);
        } else if is_whitespace_char(s[s.len() - 1]) {
            let t = s.take(s.len() - 1);
            lemma_trim_end_take(t, j - 1);
            assert(false);
        } else {
            assert(s.take(j) == s);
        }
    } else {
        assert(is_whitespace_char(s[s.len() - 1]));
        let t = s.take(s.len() - 1);
        lemma_trim_end_take(t, j);
        assert(t.take(j) == s.take(j));
    }
}

/// Remove leading whitespace from a string slice.
pub fn trim_start(s: &str) -> (r: &str)
    ensures
        r@ == trim_start_spec(s@),
{
    let n = s.unicode_len();
    let mut i: usize = 0;
    while i < n && whitespace_char(s.get_char(i))
        invariant
            0 <= i <= n,
            n == s@.len(),
            forall|k: int| 0 <= k < i ==> is_whitespace_char(s@[k]),
        decreases n - i,
    {
        i = i + 1;
    }
    proof {
        lemma_trim_start_skip(s@, i as int);
    }
    let r = s.substring_char(i, n);
    assert(r@ == s@.skip(i as int));
    r
}

/// Remove leading and trailing whitespace from a string slice.
pub fn trim(s: &str) -> (r: &str)
    ensures
        r@ == trim_spec(s@),
{
    let n = s.unicode_len();
    let mut i: usize = 0;
    while i < n && whitespace_char(s.get_char(i))
        invariant
            0 <= i <= n,
            n == s@.len(),
            forall|k: int| 0 <= k < i ==> is_whitespace_char(s@[k]),
        decreases n - i,
    {
        i = i + 1;
    }
    let mut j: usize = n;
    while j > i && whitespace_char(s.get_char(j - 1))
        invariant
            i <= j <= n,
            n == s@.len(),
            forall|k: int| 0 <= k < i ==> is_whitespace_char(s@[k]),
            i == n || !is_whitespace_char(s@[i as int]),
            forall|k: int| j <= k < n ==> is_whitespace_char(s@[k]),
        decreases j,
    {
        j = j - 1;
    }
    proof {
        lemma_trim_start_skip(s@, i as int);
        let t = s@.skip(i as int);
        lemma_trim_end_take(t, j - i);
        assert(t.take(j - i) == s@.subrange(i as int, j as int));
    }
    let r = s.substring_char(i, j);
    r
}

/// True when `s` begins with the character `c`.
pub fn starts_with_char(s: &str, c: char) -> (b: bool)
    ensures
        b == (s@.len() > 0 && s@[0] == c),
{
    let n = s.unicode_len();
    if n == 0 {
        false
    } else {
        s.get_char(0) == c
    }
}

/// The views of a sequence of owned strings.
pub open spec fn views_of(v: Seq<String>) -> Seq<Seq<char>> {
    v.map_values(|s: String| s@)
}

/// Position of the first `'\n'` in `s`, or `s.len()` when there is none.
pub open spec fn nl_pos(s: Seq<char>) -> nat
    decreases s.len(),
{
    if s.len() == 0 {
        0
    } else if s[0] == '\n' {
        0
    } else {
        1 + nl_pos(s.skip(1))
    }
}

pub proof fn lemma_nl_pos(s: Seq<char>)
    ensures
        nl_pos(s) <= s.len(),
        forall|k: int| 0 <= k < nl_pos(s) ==> s[k] != '\n',
        nl_pos(s) < s.len() ==> s[nl_pos(s) as int] == '\n',
    decreases s.len(),
{
    if s.len() == 0 {
    } else if s[0] == '\n' {
    } else {
        lemma_nl_pos(s.skip(1));
        assert forall|k: int| 0 <= k < nl_pos(s) implies s[k] != '\n' by {
            if k > 0 {
                assert(s.skip(1)[k - 1] == s[k]);
            }
        }
        if nl_pos(s) < s.len() {
            assert(s.skip(1)[nl_pos(s) - 1] == s[nl_pos(s) as int]);
        }
    }
}

/// Position of the first occurrence of `c` in `s`, or `s.len()` when there
/// is none.
pub open spec fn find_pos(s: Seq<char>, c: char) -> nat
    decreases s.len(),
{
    if s.len() == 0 {
        0
    } else if s[0] == c {
        0
    } else {
        1 + find_pos(s.skip(1), c)
    }
}

pub proof fn lemma_find_pos(s: Seq<char>, c: char)
    ensures
        find_pos(s, c) <= s.len(),
        forall|k: int| 0 <= k < find_pos(s, c) ==> s[k] != c,
        find_pos(s, c) < s.len() ==> s[find_pos(s, c) as int] == c,
    decreases s.len(),
{
    if s.len() == 0 {
    } else if s[0] == c {
    } else {
        lemma_find_pos(s.skip(1), c);
        assert forall|k: int| 0 <= k < find_pos(s, c) implies s[k] != c by {
            if k > 0 {
                assert(s.skip(1)[k - 1] == s[k]);
            }
        }
        if find_pos(s, c) < s.len() {
            assert(s.skip(1)[find_pos(s, c) - 1] == s[find_pos(s, c) as int]);
        }
    }
}

pub proof fn lemma_find_pos_unique(s: Seq<char>, c: char, i: int)
    requires
        0 <= i < s.len(),
        s[i] == c,
        forall|k: int| 0 <= k < i ==> s[k] != c,
    ensures
        find_pos(s, c) == i,
{
    lemma_find_pos(s, c);
    if find_pos(s, c) < i {
        assert(s[find_pos(s, c) as int] == c);
    }
    if find_pos(s, c) > i {
        assert(s[i] != c);
    }
}

pub proof fn lemma_find_pos_none(s: Seq<char>, c: char)
    requires
        forall|k: int| 0 <= k < s.len() ==> s[k] != c,
    ensures
        find_pos(s, c) == s.len(),
{
    lemma_find_pos(s, c);
    if find_pos(s, c) < s.len() {
        assert(s[find_pos(s, c) as int] == c);
    }
}

/// Scan `s` from `from` for the character `c`.
pub fn find_char(s: &str, from: usize, n: usize, c: char) -> (r: Option<usize>)
    requires
        n == s@.len(),
        from <= n,
    ensures
        match r {
            Some(i) => from <= i < n && s@[i as int] == c && forall|k: int|
                from <= k < i ==> s@[k] != c,
            None => forall|k: int| from <= k < n ==> s@[k] != c,
        },
{
    let mut i = from;
    while i < n
        invariant
            from <= i <= n,
            n == s@.len(),
            forall|k: int| from <= k < i ==> s@[k] != c,
        decreases n - i,
    {
        if s.get_char(i) == c {
            return Some(i);
        }
        i = i + 1;
    }
    None
}

/// A piece with one trailing carriage return removed.
pub open spec fn strip_cr_spec(s: Seq<char>) -> Seq<char> {
    if s.len() > 0 && s[s.len() - 1] == '\r' {
        s.take(s.len() - 1)
    } else {
        s
    }
}

/// Split on `'\n'` and strip one trailing `'\r'` from every piece: how the
/// parser cuts a script or a command string into physical lines. Empty
/// pieces are kept, and the empty string yields one empty piece, as with
/// `str::split('\n')`.
pub open spec fn split_script_spec(s: Seq<char>) -> Seq<Seq<char>>
    decreases s.len(),
{
    let i = nl_pos(s);
    if i >= s.len() {
        seq![strip_cr_spec(s)]
    } else {
        seq![strip_cr_spec(s.take(i as int))] + split_script_spec(s.skip(i as int + 1))
    }
}

/// The lines of a text in the sense of `str::lines`: split at `'\n'`,
/// strip a `'\r'` before each `'\n'`, and do not report a last empty line
/// produced by a trailing terminator.
pub open spec fn lines_spec(s: Seq<char>) -> Seq<Seq<char>>
    decreases s.len(),
{
    let i = nl_pos(s);
    if s.len() == 0 {
        Seq::empty()
    } else if i >= s.len() {
        seq![s]
    } else {
        seq![strip_cr_spec(s.take(i as int))] + lines_spec(s.skip(i as int + 1))
    }
}

/// Find the first `'\n'` at or after `from`, if any.
fn find_newline(s: &str, from: usize, n: usize) -> (r: Option<usize>)
    requires
        n == s@.len(),
        from <= n,
    ensures
        match r {
            Some(i) => from <= i < n && s@[i as int] == '\n'
                && forall|k: int| from <= k < i ==> s@[k] != '\n',
            None => forall|k: int| from <= k < n ==> s@[k] != '\n',
        },
{
    let mut i = from;
    while i < n
        invariant
            from <= i <= n,
            n == s@.len(),
            forall|k: int| from <= k < i ==> s@[k] != '\n',
        decreases n - i,
    {
        if s.get_char(i) == '\n' {
            return Some(i);
        }
        i = i + 1;
    }
    None
}

/// Extract the piece `[from, to)` of `s` with one trailing `'\r'` removed.
fn piece_without_cr(s: &str, from: usize, to: usize) -> (r: String)
    requires
        from <= to <= s@.len(),
    ensures
        r@ == strip_cr_spec(s@.subrange(from as int, to as int)),
{
    let cut = if to > from && s.get_char(to - 1) == '\r' {
        to - 1
    } else {
        to
    };
    let sub = s.substring_char(from, cut);
    proof {
        let piece = s@.subrange(from as int, to as int);
        if to > from && s@[to - 1] == '\r' {
            assert(piece[piece.len() - 1] == '\r');
            assert(s@.subrange(from as int, cut as int) == piece.take(piece.len() - 1));
        } else {
            assert(s@.subrange(from as int, cut as int) == strip_cr_spec(piece));
        }
    }
    String::from_str(sub)
}

proof fn lemma_nl_pos_unique(s: Seq<char>, i: int)
    requires
        0 <= i < s.len(),
        s[i] == '\n',
        forall|k: int| 0 <= k < i ==> s[k] != '\n',
    ensures
        nl_pos(s) == i,
{
    lemma_nl_pos(s);
    if nl_pos(s) < i {
        assert(s[nl_pos(s) as int] == '\n');
    }
    if nl_pos(s) > i {
        assert(s[i] != '\n');
    }
}

proof fn lemma_nl_pos_none(s: Seq<char>)
    requires
        forall|k: int| 0 <= k < s.len() ==> s[k] != '\n',
    ensures
        nl_pos(s) == s.len(),
{
    lemma_nl_pos(s);
    if nl_pos(s) < s.len() {
        assert(s[nl_pos(s) as int] == '\n');
    }
}

/// Cut a script into physical lines: split on `'\n'`, strip one trailing
/// `'\r'` from every piece, keep empty pieces.
pub fn split_script(s: &str) -> (v: Vec<String>)
    ensures
        views_of(v@) == split_script_spec(s@),
{
    let n = s.unicode_len();
    let mut v: Vec<String> = Vec::new();
    let mut from: usize = 0;
    proof {
        assert(s@.skip(0) == s@);
        assert(views_of(v@) =~= Seq::<Seq<char>>::empty());
        assert(views_of(v@) + split_script_spec(s@) == split_script_spec(s@));
    }
    loop
        invariant
            from <= n,
            n == s@.len(),
            split_script_spec(s@) == views_of(v@) + split_script_spec(s@.skip(from as int)),
        decreases n - from,
    {
        match find_newline(s, from, n) {
            Some(i) => {
                let piece = piece_without_cr(s, from, i);
                proof {
                    let rest = s@.skip(from as int);
                    assert(rest[i - from] == s@[i as int]);
                    assert(forall|k: int| 0 <= k < i - from ==> rest[k] == s@[k + from]);
                    lemma_nl_pos_unique(rest, i - from);
                    assert(rest.take(i - from) == s@.subrange(from as int, i as int));
                    assert(rest.skip(i - from + 1) == s@.skip(i + 1));
                    assert(views_of(v@.push(piece)) == views_of(v@).push(piece@));
                }
                v.push(piece);
                from = i + 1;
            },
            None => {
                let piece = piece_without_cr(s, from, n);
                proof {
                    let rest = s@.skip(from as int);
                    assert(forall|k: int| 0 <= k < rest.len() ==> rest[k] == s@[k + from]);
                    lemma_nl_pos_none(rest);
                    assert(split_script_spec(rest) == seq![strip_cr_spec(rest)]);
                    assert(rest == s@.subrange(from as int, n as int));
                    assert(views_of(v@.push(piece)) == views_of(v@).push(piece@));
                    assert(views_of(v@).push(piece@) == views_of(v@) + seq![piece@]);
                }
                v.push(piece);
                return v;
            },
        }
    }
}

/// The lines of `input` in the sense of `str::lines`.
pub fn split_lines(s: &str) -> (v: Vec<String>)
    ensures
        views_of(v@) == lines_spec(s@),
{
    let n = s.unicode_len();
    let mut v: Vec<String> = Vec::new();
    let mut from: usize = 0;
    proof {
        assert(s@.skip(0) == s@);
        assert(views_of(v@) =~= Seq::<Seq<char>>::empty());
        assert(views_of(v@) + lines_spec(s@) == lines_spec(s@));
    }
    loop
        invariant
            from <= n,
            n == s@.len(),
            lines_spec(s@) == views_of(v@) + lines_spec(s@.skip(from as int)),
        decreases n - from,
    {
        if from == n {
            proof {
                assert(s@.skip(from as int) == Seq::<char>::empty());
                assert(views_of(v@) + Seq::<Seq<char>>::empty() == views_of(v@));
            }
            return v;
        }
        match find_newline(s, from, n) {
            Some(i) => {
                let piece = piece_without_cr(s, from, i);
                proof {
                    let rest = s@.skip(from as int);
                    assert(rest[i - from] == s@[i as int]);
                    assert(forall|k: int| 0 <= k < i - from ==> rest[k] == s@[k + from]);
                    lemma_nl_pos_unique(rest, i - from);
                    assert(rest.take(i - from) == s@.subrange(from as int, i as int));
                    assert(rest.skip(i - from + 1) == s@.skip(i + 1));
                    assert(views_of(v@.push(piece)) == views_of(v@).push(piece@));
                }
                v.push(piece);
                from = i + 1;
            },
            None => {
                let sub = s.substring_char(from, n);
                let piece = String::from_str(sub);
                proof {
                    let rest = s@.skip(from as int);
                    assert(rest.len() > 0);
                    assert(forall|k: int| 0 <= k < rest.len() ==> rest[k] == s@[k + from]);
                    lemma_nl_pos_none(rest);
                    assert(lines_spec(rest) == seq![rest]);
                    assert(rest == s@.subrange(from as int, n as int));
                    assert(views_of(v@.push(piece)) == views_of(v@).push(piece@));
                    assert(views_of(v@).push(piece@) == views_of(v@) + seq![piece@]);
                }
                v.push(piece);
                return v;
            },
        }
    }
}

/// Lexicographic order on character sequences by code point, the order in
/// which lines are sorted.
pub open spec fn lex_le(a: Seq<char>, b: Seq<char>) -> bool
    decreases a.len(),
{
    if a.len() == 0 {
        true
    } else if b.len() == 0 {
        false
    } else if a[0] == b[0] {
        lex_le(a.skip(1), b.skip(1))
    } else {
        (a[0] as u32) < (b[0] as u32)
    }
}

/// Decide `lex_le(a@, b@)`.
pub fn str_lex_le(a: &str, b: &str) -> (r: bool)
    ensures
        r == lex_le(a@, b@),
{
    let na = a.unicode_len();
    let nb = b.unicode_len();
    let mut i: usize = 0;
    proof {
        assert(a@.skip(0) == a@);
        assert(b@.skip(0) == b@);
    }
    loop
        invariant
            i <= na,
            i <= nb,
            na == a@.len(),
            nb == b@.len(),
            lex_le(a@, b@) == lex_le(a@.skip(i as int), b@.skip(i as int)),
            forall|k: int| 0 <= k < i ==> a@[k] == b@[k],
        decreases na - i,
    {
        if i == na {
            proof {
                assert(a@.skip(i as int).len() == 0);
            }
            return true;
        }
        if i == nb {
            proof {
                assert(b@.skip(i as int).len() == 0);
                assert(a@.skip(i as int).len() > 0);
            }
            return false;
        }
        let ca = a.get_char(i);
        let cb = b.get_char(i);
        if ca == cb {
            proof {
                let sa = a@.skip(i as int);
                let sb = b@.skip(i as int);
                assert(sa[0] == ca && sb[0] == cb);
                assert(sa.skip(1) == a@.skip(i + 1));
                assert(sb.skip(1) == b@.skip(i + 1));
            }
            i = i + 1;
        } else {
            proof {
                let sa = a@.skip(i as int);
                let sb = b@.skip(i as int);
                assert(sa[0] == ca && sb[0] == cb);
            }
            return (ca as u32) < (cb as u32);
        }
    }
}

/// Appending one character extends the membership of a sequence by
/// exactly that character.
pub proof fn lemma_contains_push(s: Seq<char>, c: char, x: char)
    ensures
        s.push(c).contains(x) == (s.contains(x) || c == x),
{
    let post = s.push(c);
    if post.contains(x) {
        let w = choose|w: int| 0 <= w < post.len() && post[w] == x;
        if w < s.len() {
            assert(s[w] == x);
        }
    }
    if s.contains(x) {
        let w = choose|w: int| 0 <= w < s.len() && s[w] == x;
        assert(post[w] == x);
    }
    if c == x {
        assert(post[s.len() as int] == x);
    }
}

/// Decide whether two string slices hold the same characters.
pub fn str_eq(a: &str, b: &str) -> (r: bool)
    ensures
        r == (a@ == b@),
{
    let na = a.unicode_len();
    let nb = b.unicode_len();
    if na != nb {
        return false;
    }
    let mut i: usize = 0;
    while i < na
        invariant
            i <= na,
            na == a@.len(),
            na == b@.len(),
            forall|k: int| 0 <= k < i ==> a@[k] == b@[k],
        decreases na - i,
    {
        if a.get_char(i) != b.get_char(i) {
            return false;
        }
        i = i + 1;
    }
    proof {
        assert(a@ =~= b@);
    }
    true
}

/// The one-character string holding `c`.
///
/// Relies on `char::to_string`: the resulting string consists of exactly
/// that character.
#[verifier::external_body]
pub fn char_to_string(c: char) -> (s: String)
    ensures
        s@ == seq![c],
{
    c.to_string()
}

/// The order is total: two sequences always compare one way or the other.
pub proof fn lemma_lex_le_total(a: Seq<char>, b: Seq<char>)
    ensures
        lex_le(a, b) || lex_le(b, a),
    decreases a.len(),
{
    if a.len() == 0 || b.len() == 0 {
    } else if a[0] == b[0] {
        lemma_lex_le_total(a.skip(1), b.skip(1));
    } else {
        vstd::utf8::char_u32_cast(a[0], a[0] as u32);
        vstd::utf8::char_u32_cast(b[0], b[0] as u32);
        assert((a[0] as u32) != (b[0] as u32));
    }
}

/// The order is transitive.
pub proof fn lemma_lex_le_trans(a: Seq<char>, b: Seq<char>, c: Seq<char>)
    requires
        lex_le(a, b),
        lex_le(b, c),
    ensures
        lex_le(a, c),
    decreases a.len(),
{
    if a.len() == 0 {
    } else if b.len() == 0 {
    } else if c.len() == 0 {
    } else {
        if a[0] == b[0] && b[0] == c[0] {
            lemma_lex_le_trans(a.skip(1), b.skip(1), c.skip(1));
        }
    }
}

} // verus!
