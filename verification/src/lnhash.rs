//! The address codec: a verified line address (`lnhash`) is written
//! `lineno|hhhh|` where `hhhh` is the lower 16 bits of a fixed-seed content
//! hash of the line, printed as exactly four lowercase hex digits.

use std::collections::hash_map::DefaultHasher;
use std::hash::Hasher;

use vstd::prelude::*;
use vstd::std_specs::hash::DefaultHasherAdditionalSpecFns;

use crate::EditError;
use crate::chars::{find_pos, lemma_find_pos_none, lemma_find_pos_unique, find_char};

verus! {

/// A verified line address: a 1-based line number paired with a short
/// content hash. Line number `0` is the before-the-first-line sentinel.
#[derive(Debug, Clone, Copy, PartialEq, Eq, Structural)]
pub struct LnHash {
    pub lineno: usize,
    pub hash: u16,
}

/// The 16-bit content hash of a line: the low 16 bits of a fixed-seed
/// 64-bit hash over the line's UTF-8 bytes. The seed is fixed, so the value
/// is a function of the line's characters alone.
pub open spec fn line_hash_spec(s: Seq<char>) -> u16 {
    (DefaultHasher::spec_finish(seq![vstd::utf8::encode_utf8(s)]) % 0x10000) as u16
}

/// Compute the 16-bit lnhash of a line's content (excluding the line
/// ending).
pub fn line_hash_u16(line: &str) -> (h: u16)
    ensures
        h == line_hash_spec(line@),
{
    let bytes = line.as_bytes();
    let mut hasher = DefaultHasher::new();
    hasher.write(bytes);
    let h64 = hasher.finish();
    proof {
        assert(hasher@ =~= seq![vstd::utf8::encode_utf8(line@)]);
    }
    (h64 % 0x10000) as u16
}

/// The decimal digit character for `d`.
pub open spec fn dec_char_of(d: int) -> char {
    if d == 0 { '0' }
    else if d == 1 { '1' }
    else if d == 2 { '2' }
    else if d == 3 { '3' }
    else if d == 4 { '4' }
    else if d == 5 { '5' }
    else if d == 6 { '6' }
    else if d == 7 { '7' }
    else if d == 8 { '8' }
    else { '9' }
}

/// The lowercase hex digit character for `d`.
pub open spec fn hex_char_of(d: int) -> char {
    if d < 10 { dec_char_of(d) }
    else if d == 10 { 'a' }
    else if d == 11 { 'b' }
    else if d == 12 { 'c' }
    else if d == 13 { 'd' }
    else if d == 14 { 'e' }
    else { 'f' }
}

pub open spec fn is_dec_digit(c: char) -> bool {
    48 <= (c as u32) && (c as u32) <= 57
}

pub open spec fn digit_val(c: char) -> nat {
    ((c as u32) - 48) as nat
}

/// A lowercase hexadecimal digit.
pub open spec fn is_lhex_digit(c: char) -> bool {
    is_dec_digit(c) || (97 <= (c as u32) && (c as u32) <= 102)
}

pub open spec fn hex_val_of(c: char) -> nat {
    if is_dec_digit(c) {
        digit_val(c)
    } else {
        ((c as u32) - 87) as nat
    }
}

/// The decimal representation of `n`, most significant digit first, no
/// leading zeros (except for `0` itself).
pub open spec fn dec_str_of(n: nat) -> Seq<char>
    decreases n,
{
    if n < 10 {
        seq![dec_char_of(n as int)]
    } else {
        dec_str_of(n / 10).push(dec_char_of((n % 10) as int))
    }
}

/// The numeric value of a digit string, most significant digit first.
pub open spec fn dec_value(s: Seq<char>) -> nat
    decreases s.len(),
{
    if s.len() == 0 {
        0
    } else {
        dec_value(s.drop_last()) * 10 + digit_val(s.last())
    }
}

pub open spec fn all_dec_digits(s: Seq<char>) -> bool {
    forall|k: int| 0 <= k < s.len() ==> is_dec_digit(s[k])
}

/// A well-formed line-number segment: non-empty, all decimal digits, and a
/// value that fits in `usize`.
pub open spec fn valid_dec(s: Seq<char>) -> bool {
    s.len() > 0 && all_dec_digits(s) && dec_value(s) <= usize::MAX
}

/// The four lowercase hex digits of `h`, most significant nibble first.
pub open spec fn hex4_of(h: u16) -> Seq<char> {
    seq![
        hex_char_of(((h >> 12) & 0xf) as int),
        hex_char_of(((h >> 8) & 0xf) as int),
        hex_char_of(((h >> 4) & 0xf) as int),
        hex_char_of((h & 0xf) as int),
    ]
}

/// The value of a four-character hex segment.
pub open spec fn hex4_value(s: Seq<char>) -> nat {
    ((hex_val_of(s[0]) * 16 + hex_val_of(s[1])) * 16 + hex_val_of(s[2])) * 16 + hex_val_of(s[3])
}

pub open spec fn valid_hex4(s: Seq<char>) -> bool {
    s.len() == 4 && forall|k: int| 0 <= k < 4 ==> is_lhex_digit(s[k])
}

/// The printed form of an address: `lineno|hhhh|`.
pub open spec fn format_lnhash_spec(lineno: nat, h: u16) -> Seq<char> {
    dec_str_of(lineno) + seq!['|'] + hex4_of(h) + seq!['|']
}

/// Parse an address from the start of `s`: the line number up to the first
/// `'|'`, then exactly four lowercase hex digits, then a closing `'|'`;
/// what follows is the unconsumed remainder.
pub open spec fn parse_prefix_spec(s: Seq<char>) -> Option<(usize, u16, Seq<char>)> {
    let b1 = find_pos(s, '|');
    if b1 >= s.len() {
        None
    } else {
        let num = s.take(b1 as int);
        let rest = s.skip(b1 as int + 1);
        if !valid_dec(num) {
            None
        } else {
            let b2 = find_pos(rest, '|');
            if b2 >= rest.len() {
                None
            } else {
                let hx = rest.take(b2 as int);
                if !valid_hex4(hx) {
                    None
                } else {
                    Some(
                        (
                            dec_value(num) as usize,
                            hex4_value(hx) as u16,
                            rest.skip(b2 as int + 1),
                        ),
                    )
                }
            }
        }
    }
}

/// Parse a whole string as one address: as `parse_prefix_spec`, with
/// nothing allowed to follow.
pub open spec fn parse_lnhash_spec(s: Seq<char>) -> Option<LnHash> {
    match parse_prefix_spec(s) {
        None => None,
        Some((n, h, rest)) => if rest.len() == 0 {
            Some(LnHash { lineno: n, hash: h })
        } else {
            None
        },
    }
}

/// Render the decimal representation of `n`.
pub(crate) fn dec_string(n: usize) -> (s: String)
    ensures
        s@ == dec_str_of(n as nat),
    decreases n,
{
    let digits = "0123456789";
    proof {
        reveal_strlit("0123456789");
    }
    let d = n % 10;
    let ds = digits.substring_char(d, d + 1);
    proof {
        assert(ds@ =~= seq![digits@[d as int]]);
        assert(digits@[d as int] == dec_char_of(d as int));
    }
    if n < 10 {
        let s = String::from_str(ds);
        proof {
            assert(s@ =~= dec_str_of(n as nat));
        }
        s
    } else {
        let rest = dec_string(n / 10);
        let s = rest.concat(ds);
        proof {
            assert(s@ =~= dec_str_of(n as nat));
        }
        s
    }
}

/// Render `h` as four lowercase hex digits.
pub(crate) fn hex4_string(h: u16) -> (s: String)
    ensures
        s@ == hex4_of(h),
{
    let digits = "0123456789abcdef";
    proof {
        reveal_strlit("0123456789abcdef");
        assert(((h >> 12) & 0xf) < 16 && ((h >> 8) & 0xf) < 16 && ((h >> 4) & 0xf) < 16 && (
        h & 0xf) < 16) by (bit_vector);
    }
    let n3 = ((h >> 12) & 0xf) as usize;
    let n2 = ((h >> 8) & 0xf) as usize;
    let n1 = ((h >> 4) & 0xf) as usize;
    let n0 = (h & 0xf) as usize;
    let c3 = digits.substring_char(n3, n3 + 1);
    let c2 = digits.substring_char(n2, n2 + 1);
    let c1 = digits.substring_char(n1, n1 + 1);
    let c0 = digits.substring_char(n0, n0 + 1);
    proof {
        assert(digits@[n3 as int] == hex_char_of(n3 as int));
        assert(digits@[n2 as int] == hex_char_of(n2 as int));
        assert(digits@[n1 as int] == hex_char_of(n1 as int));
        assert(digits@[n0 as int] == hex_char_of(n0 as int));
    }
    let s = String::from_str(c3).concat(c2).concat(c1).concat(c0);
    proof {
        assert(s@ =~= hex4_of(h));
    }
    s
}

/// Format a line address as `lineno|hash|`.
pub fn format_lnhash(lineno: usize, line: &str) -> (s: String)
    ensures
        s@ == format_lnhash_spec(lineno as nat, line_hash_spec(line@)),
{
    let h = line_hash_u16(line);
    let num = dec_string(lineno);
    let hx = hex4_string(h);
    proof {
        reveal_strlit("|");
    }
    let s = num.concat("|").concat(hx.as_str()).concat("|");
    proof {
        assert(s@ =~= format_lnhash_spec(lineno as nat, line_hash_spec(line@)));
    }
    s
}

proof fn lemma_dec_value_mono(s: Seq<char>, i: int, j: int)
    requires
        0 <= i <= j <= s.len(),
    ensures
        dec_value(s.take(i)) <= dec_value(s.take(j)),
    decreases j - i,
{
    if i < j {
        lemma_dec_value_mono(s, i, j - 1);
        let t = s.take(j);
        assert(t.drop_last() =~= s.take(j - 1));
        assert(dec_value(s.take(j)) == dec_value(s.take(j - 1)) * 10 + digit_val(s[j - 1]));
    }
}

/// Parse the decimal segment `s[from..to]`; `Ok` exactly when it is a
/// well-formed line number that fits in `usize`.
pub(crate) fn parse_dec(s: &str, from: usize, to: usize) -> (r: Result<usize, ()>)
    requires
        from <= to <= s@.len(),
        to - from >= 1,
    ensures
        match r {
            Ok(v) => valid_dec(s@.subrange(from as int, to as int)) && v == dec_value(
                s@.subrange(from as int, to as int),
            ),
            Err(_) => !valid_dec(s@.subrange(from as int, to as int)),
        },
{
    let ghost sub = s@.subrange(from as int, to as int);
    let mut acc: usize = 0;
    let mut i = from;
    while i < to
        invariant
            from <= i <= to <= s@.len(),
            sub == s@.subrange(from as int, to as int),
            acc == dec_value(sub.take(i - from)),
            forall|k: int| 0 <= k < i - from ==> is_dec_digit(sub[k]),
        decreases to - i,
    {
        let c = s.get_char(i);
        let u = c as u32;
        proof {
            assert(sub[i - from] == s@[i as int]);
        }
        if u < 48 || u > 57 {
            proof {
                assert(!is_dec_digit(sub[i - from]));
            }
            return Err(());
        }
        let d = (u - 48) as usize;
        let step = match acc.checked_mul(10) {
            Some(x) => x.checked_add(d),
            None => None,
        };
        proof {
            assert(sub.take(i - from + 1).drop_last() =~= sub.take(i - from));
            assert(dec_value(sub.take(i - from + 1)) == dec_value(sub.take(i - from)) * 10
                + digit_val(sub[i - from]));
        }
        match step {
            Some(acc2) => {
                acc = acc2;
                proof {
                    assert(acc == dec_value(sub.take(i - from + 1)));
                }
            },
            None => {
                proof {
                    assert(dec_value(sub.take(i - from + 1)) > usize::MAX);
                    if valid_dec(sub) {
                        lemma_dec_value_mono(sub, i - from + 1, sub.len() as int);
                        assert(sub.take(sub.len() as int) =~= sub);
                    }
                }
                return Err(());
            },
        }
        i = i + 1;
    }
    proof {
        assert(sub.take(sub.len() as int) =~= sub);
        assert(valid_dec(sub));
    }
    Ok(acc)
}

/// Parse one lowercase hex digit.
fn hex_digit(c: char) -> (r: Result<u16, ()>)
    ensures
        match r {
            Ok(v) => is_lhex_digit(c) && v == hex_val_of(c) && v < 16,
            Err(_) => !is_lhex_digit(c),
        },
{
    let u = c as u32;
    if 48 <= u && u <= 57 {
        Ok((u - 48) as u16)
    } else if 97 <= u && u <= 102 {
        Ok((u - 87) as u16)
    } else {
        Err(())
    }
}

/// Parse the four-character hex segment `s[from..from + 4]`.
fn parse_hex4(s: &str, from: usize) -> (r: Result<u16, ()>)
    requires
        from + 4 <= s@.len(),
        from + 4 <= usize::MAX,
    ensures
        match r {
            Ok(v) => valid_hex4(s@.subrange(from as int, from as int + 4)) && v == hex4_value(
                s@.subrange(from as int, from as int + 4),
            ),
            Err(_) => !valid_hex4(s@.subrange(from as int, from as int + 4)),
        },
{
    let ghost sub = s@.subrange(from as int, from as int + 4);
    let r3 = hex_digit(s.get_char(from));
    let r2 = hex_digit(s.get_char(from + 1));
    let r1 = hex_digit(s.get_char(from + 2));
    let r0 = hex_digit(s.get_char(from + 3));
    proof {
        assert(sub[0] == s@[from as int]);
        assert(sub[1] == s@[from as int + 1]);
        assert(sub[2] == s@[from as int + 2]);
        assert(sub[3] == s@[from as int + 3]);
    }
    match (r3, r2, r1, r0) {
        (Ok(v3), Ok(v2), Ok(v1), Ok(v0)) => {
            let v = ((v3 * 16 + v2) * 16 + v1) * 16 + v0;
            Ok(v)
        },
        _ => Err(()),
    }
}

/// Parse a `lineno|hash|` from the start of `input`, returning the address
/// and the remaining suffix.
pub fn parse_lnhash_prefix<'a>(input: &'a str) -> (r: Result<(LnHash, &'a str), EditError>)
    ensures
        match r {
            Ok(p) => parse_prefix_spec(input@) == Some((p.0.lineno, p.0.hash, p.1@)),
            Err(_) => parse_prefix_spec(input@) is None,
        },
{
    let n = input.unicode_len();
    let b1 = match find_char(input, 0, n, '|') {
        Some(i) => i,
        None => {
            proof {
                lemma_find_pos_none(input@, '|');
            }
            return Err(EditError::from_text("invalid lnhash: missing '|' after line number"));
        },
    };
    proof {
        lemma_find_pos_unique(input@, '|', b1 as int);
    }
    let ghost num = input@.take(b1 as int);
    let ghost rest = input@.skip(b1 as int + 1);
    if b1 == 0 {
        proof {
            assert(!valid_dec(num));
        }
        return Err(EditError::from_text("invalid lnhash: empty line number"));
    }
    let lineno = match parse_dec(input, 0, b1) {
        Ok(v) => v,
        Err(_) => {
            proof {
                assert(num =~= input@.subrange(0, b1 as int));
            }
            return Err(EditError::from_text("invalid lnhash: bad line number"));
        },
    };
    proof {
        assert(num =~= input@.subrange(0, b1 as int));
    }
    let b2 = match find_char(input, b1 + 1, n, '|') {
        Some(i) => i,
        None => {
            proof {
                assert(forall|k: int| 0 <= k < rest.len() ==> rest[k] == input@[k + b1 + 1]);
                lemma_find_pos_none(rest, '|');
            }
            return Err(EditError::from_text("invalid lnhash: missing trailing '|' after hash"));
        },
    };
    proof {
        assert(forall|k: int| 0 <= k < rest.len() ==> rest[k] == input@[k + b1 + 1]);
        assert(rest[b2 - b1 - 1] == input@[b2 as int]);
        lemma_find_pos_unique(rest, '|', b2 - b1 - 1);
        assert(find_pos(rest, '|') == b2 - b1 - 1);
    }
    if b2 - b1 - 1 != 4 {
        proof {
            assert(rest.take(b2 - b1 - 1).len() != 4);
            assert(!valid_hex4(rest.take(b2 - b1 - 1)));
        }
        return Err(EditError::from_text("invalid lnhash: hash must be 4 hex chars"));
    }
    let hash = match parse_hex4(input, b1 + 1) {
        Ok(v) => v,
        Err(_) => {
            proof {
                assert(rest.take(4) =~= input@.subrange(b1 as int + 1, b1 as int + 5));
            }
            return Err(EditError::from_text("invalid lnhash: bad hash"));
        },
    };
    proof {
        assert(rest.take(4) =~= input@.subrange(b1 as int + 1, b1 as int + 5));
    }
    let suffix = input.substring_char(b2 + 1, n);
    proof {
        assert(suffix@ =~= rest.skip(b2 - b1 - 1 + 1));
    }
    Ok((LnHash { lineno, hash }, suffix))
}

/// Parse a `lineno|hash|` address; the whole string must be consumed.
pub fn parse_lnhash(s: &str) -> (r: Result<LnHash, EditError>)
    ensures
        match r {
            Ok(lh) => parse_lnhash_spec(s@) == Some(lh),
            Err(_) => parse_lnhash_spec(s@) is None,
        },
{
    let (lh, rest) = match parse_lnhash_prefix(s) {
        Ok(p) => p,
        Err(e) => {
            return Err(e);
        },
    };
    if rest.unicode_len() != 0 {
        return Err(EditError::from_text("invalid lnhash: trailing characters after address"));
    }
    Ok(lh)
}

proof fn lemma_dec_str_digits(n: nat)
    ensures
        dec_str_of(n).len() >= 1,
        all_dec_digits(dec_str_of(n)),
    decreases n,
{
    if n < 10 {
        assert(is_dec_digit(dec_char_of(n as int)));
    } else {
        lemma_dec_str_digits(n / 10);
        assert(is_dec_digit(dec_char_of((n % 10) as int)));
        assert forall|k: int| 0 <= k < dec_str_of(n).len() implies is_dec_digit(
            dec_str_of(n)[k],
        ) by {
            if k < dec_str_of(n / 10).len() {
                assert(dec_str_of(n)[k] == dec_str_of(n / 10)[k]);
            }
        }
    }
}

proof fn lemma_dec_str_value(n: nat)
    ensures
        dec_value(dec_str_of(n)) == n,
    decreases n,
{
    if n < 10 {
        let s = dec_str_of(n);
        assert(s.drop_last() =~= Seq::<char>::empty());
        assert(dec_value(Seq::<char>::empty()) == 0);
        assert(digit_val(dec_char_of(n as int)) == n);
        assert(dec_value(s) == digit_val(s.last()));
    } else {
        lemma_dec_str_value(n / 10);
        let s = dec_str_of(n);
        assert(s.drop_last() =~= dec_str_of(n / 10));
        assert(digit_val(dec_char_of((n % 10) as int)) == n % 10);
        assert(dec_value(s) == dec_value(dec_str_of(n / 10)) * 10 + digit_val(s.last()));
        assert(n == (n / 10) * 10 + n % 10) by (nonlinear_arith);
    }
}

proof fn lemma_hex4_roundtrip(h: u16)
    ensures
        valid_hex4(hex4_of(h)),
        hex4_value(hex4_of(h)) == h,
{
    assert(((h >> 12) & 0xf) < 16 && ((h >> 8) & 0xf) < 16 && ((h >> 4) & 0xf) < 16 && (h & 0xf)
        < 16) by (bit_vector);
    let n3 = ((h >> 12) & 0xf) as int;
    let n2 = ((h >> 8) & 0xf) as int;
    let n1 = ((h >> 4) & 0xf) as int;
    let n0 = (h & 0xf) as int;
    assert(is_lhex_digit(hex_char_of(n3)) && hex_val_of(hex_char_of(n3)) == n3);
    assert(is_lhex_digit(hex_char_of(n2)) && hex_val_of(hex_char_of(n2)) == n2);
    assert(is_lhex_digit(hex_char_of(n1)) && hex_val_of(hex_char_of(n1)) == n1);
    assert(is_lhex_digit(hex_char_of(n0)) && hex_val_of(hex_char_of(n0)) == n0);
    assert(h == ((h >> 12) & 0xf) * 4096 + ((h >> 8) & 0xf) * 256 + ((h >> 4) & 0xf) * 16 + (h
        & 0xf)) by (bit_vector);
}

/// Address round-trip: parsing a formatted address recovers exactly the
/// line number and hash that were printed.
pub proof fn lemma_lnhash_roundtrip(lineno: usize, h: u16)
    ensures
        parse_lnhash_spec(format_lnhash_spec(lineno as nat, h)) == Some(
            LnHash { lineno, hash: h },
        ),
{
    let num = dec_str_of(lineno as nat);
    let hx = hex4_of(h);
    let s = format_lnhash_spec(lineno as nat, h);
    lemma_dec_str_digits(lineno as nat);
    lemma_dec_str_value(lineno as nat);
    lemma_hex4_roundtrip(h);
    let d = num.len() as int;
    assert(s.len() == d + 6);
    assert(s[d] == '|');
    assert forall|k: int| 0 <= k < d implies s[k] != '|' by {
        assert(s[k] == num[k]);
        assert(is_dec_digit(num[k]));
        assert(('|' as u32) == 124);
    }
    lemma_find_pos_unique(s, '|', d);
    assert(s.take(d) =~= num);
    let rest = s.skip(d + 1);
    assert(rest =~= hx + seq!['|']);
    assert(valid_dec(num));
    assert(rest[4] == '|');
    assert forall|k: int| 0 <= k < 4 implies rest[k] != '|' by {
        assert(rest[k] == hx[k]);
        assert(is_lhex_digit(hx[k]));
        assert(('|' as u32) == 124);
    }
    lemma_find_pos_unique(rest, '|', 4);
    assert(rest.take(4) =~= hx);
    assert(rest.skip(5) =~= Seq::<char>::empty());
    assert(parse_prefix_spec(s) == Some((lineno, h, Seq::<char>::empty())));
}

/// Address round-trip stated for a line's content: for any line `L` and
/// number `n`, parsing `format(n, L)` yields the address `n` with the
/// content hash of `L`.
pub proof fn lemma_address_roundtrip(n: usize, line: Seq<char>)
    ensures
        parse_lnhash_spec(format_lnhash_spec(n as nat, line_hash_spec(line))) == Some(
            LnHash { lineno: n, hash: line_hash_spec(line) },
        ),
{
    lemma_lnhash_roundtrip(n, line_hash_spec(line));
}

} // verus!
