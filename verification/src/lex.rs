//! Byte-level text structure of the level format: splitting the input into
//! lines, splitting a line into whitespace-separated tokens, recognizing
//! delimiter lines, and reading unsigned 16-bit decimal numbers.
//!
//! Each notion is defined once as a spec function over byte sequences; the
//! executable functions are proved to return exactly those values.

use vstd::prelude::*;

verus! {

/// ASCII whitespace that separates tokens within a line: space, tab,
/// carriage return, vertical tab and form feed.
pub open spec fn is_ws(b: u8) -> bool {
    b == 32 || b == 9 || b == 13 || b == 11 || b == 12
}

/// ASCII decimal digit.
pub open spec fn is_digit(b: u8) -> bool {
    48 <= b <= 57
}

/// Index of the first line feed in `t`, or `t.len()` when there is none.
pub open spec fn newline_idx(t: Seq<u8>) -> int
    decreases t.len(),
{
    if t.len() == 0 {
        0
    } else if t[0] == 10 {
        0
    } else {
        1 + newline_idx(t.skip(1))
    }
}

pub proof fn lemma_newline_idx(t: Seq<u8>)
    ensures
        0 <= newline_idx(t) <= t.len(),
        newline_idx(t) < t.len() ==> t[newline_idx(t)] == 10,
        forall|k: int| 0 <= k < newline_idx(t) ==> t[k] != 10,
    decreases t.len(),
{
    if t.len() == 0 {
    } else if t[0] == 10 {
    } else {
        lemma_newline_idx(t.skip(1));
        assert forall|k: int| 0 <= k < newline_idx(t) implies t[k] != 10 by {
            if k > 0 {
                assert(t.skip(1)[k - 1] != 10);
            }
        }
    }
}

/// A line with its trailing carriage return removed, mirroring how a
/// `\r\n` ending leaves a bare line.
pub open spec fn strip_cr(l: Seq<u8>) -> Seq<u8> {
    if l.len() > 0 && l[l.len() - 1] == 13 {
        l.drop_last()
    } else {
        l
    }
}

/// The lines of `t`: pieces separated by line feeds, each with a trailing
/// carriage return removed; a final line feed ends the last line rather
/// than opening an empty one.
pub open spec fn lines_of(t: Seq<u8>) -> Seq<Seq<u8>>
    decreases t.len(),
    via lines_of_dec
{
    if t.len() == 0 {
        Seq::empty()
    } else if newline_idx(t) == t.len() {
        seq![strip_cr(t)]
    } else {
        seq![strip_cr(t.take(newline_idx(t)))] + lines_of(t.skip(newline_idx(t) + 1))
    }
}

#[via_fn]
proof fn lines_of_dec(t: Seq<u8>) {
    lemma_newline_idx(t);
}

/// Index of the first whitespace byte in `l`, or `l.len()` when there is
/// none.
pub open spec fn ws_idx(l: Seq<u8>) -> int
    decreases l.len(),
{
    if l.len() == 0 {
        0
    } else if is_ws(l[0]) {
        0
    } else {
        1 + ws_idx(l.skip(1))
    }
}

pub proof fn lemma_ws_idx(l: Seq<u8>)
    ensures
        0 <= ws_idx(l) <= l.len(),
        ws_idx(l) < l.len() ==> is_ws(l[ws_idx(l)]),
        forall|k: int| 0 <= k < ws_idx(l) ==> !is_ws(l[k]),
    decreases l.len(),
{
    if l.len() == 0 {
    } else if is_ws(l[0]) {
    } else {
        lemma_ws_idx(l.skip(1));
        assert forall|k: int| 0 <= k < ws_idx(l) implies !is_ws(l[k]) by {
            if k > 0 {
                assert(!is_ws(l.skip(1)[k - 1]));
            }
        }
    }
}

/// The whitespace-separated tokens of one line, in order.
pub open spec fn tokens_of(l: Seq<u8>) -> Seq<Seq<u8>>
    decreases l.len(),
    via tokens_of_dec
{
    if l.len() == 0 {
        Seq::empty()
    } else if is_ws(l[0]) {
        tokens_of(l.skip(1))
    } else {
        seq![l.take(ws_idx(l))] + tokens_of(l.skip(ws_idx(l)))
    }
}

#[via_fn]
proof fn tokens_of_dec(l: Seq<u8>) {
    lemma_ws_idx(l);
}

/// A section delimiter: a non-empty line consisting solely of `=` bytes.
pub open spec fn is_delim_line(l: Seq<u8>) -> bool {
    l.len() > 0 && forall|k: int| 0 <= k < l.len() ==> l[k] == 61
}

/// Value of a string of decimal digits, most significant first.
pub open spec fn dec_val(s: Seq<u8>) -> int
    decreases s.len(),
{
    if s.len() == 0 {
        0
    } else {
        dec_val(s.drop_last()) * 10 + (s.last() - 48)
    }
}

pub open spec fn all_digits(s: Seq<u8>) -> bool {
    forall|k: int| 0 <= k < s.len() ==> is_digit(s[k])
}

/// A token that denotes an unsigned 16-bit decimal number: non-empty, all
/// digits, value at most 65535.
pub open spec fn is_u16_token(s: Seq<u8>) -> bool {
    s.len() > 0 && all_digits(s) && dec_val(s) <= 0xFFFF
}

/// The views of a vector of byte vectors.
pub open spec fn views_of(s: Seq<Vec<u8>>) -> Seq<Seq<u8>> {
    s.map_values(|v: Vec<u8>| v@)
}

fn is_ws_byte(b: u8) -> (r: bool)
    ensures
        r == is_ws(b),
{
    b == 32 || b == 9 || b == 13 || b == 11 || b == 12
}

/// Copy of `text[from..to]` as an owned vector.
pub(crate) fn copy_range(text: &[u8], from: usize, to: usize) -> (r: Vec<u8>)
    requires
        from <= to <= text@.len(),
    ensures
        r@ == text@.subrange(from as int, to as int),
{
    let mut r: Vec<u8> = Vec::new();
    let mut k: usize = from;
    while k < to
        invariant
            from <= k <= to <= text@.len(),
            r@ == text@.subrange(from as int, k as int),
        decreases to - k,
    {
        r.push(text[k]);
        k = k + 1;
        proof {
            assert(r@ =~= text@.subrange(from as int, k as int));
        }
    }
    r
}

/// Splits the input into its lines, exactly as [`lines_of`] describes.
pub fn split_lines(text: &[u8]) -> (r: Vec<Vec<u8>>)
    ensures
        views_of(r@) == lines_of(text@),
{
    let mut out: Vec<Vec<u8>> = Vec::new();
    let mut pos: usize = 0;
    proof {
        assert(text@.skip(0) =~= text@);
        assert(views_of(out@) + lines_of(text@) =~= lines_of(text@));
    }
    while pos < text.len()
        invariant
            pos <= text@.len(),
            lines_of(text@) == views_of(out@) + lines_of(text@.skip(pos as int)),
        decreases text@.len() - pos,
    {
        let ghost t = text@.skip(pos as int);
        let mut j: usize = pos;
        while j < text.len() && text[j] != 10
            invariant
                pos <= j <= text@.len(),
                forall|k: int| pos <= k < j ==> text@[k] != 10,
            decreases text@.len() - j,
        {
            j = j + 1;
        }
        proof {
            lemma_newline_idx(t);
            assert forall|k: int| 0 <= k < j - pos implies t[k] != 10 by {
                assert(t[k] == text@[pos + k]);
            }
            if newline_idx(t) < j - pos {
                assert(t[newline_idx(t)] == 10);
                assert(text@[pos + newline_idx(t)] == 10);
                assert(false);
            }
            if j - pos < newline_idx(t) {
                assert(j < text@.len());
                assert(t[j - pos] == text@[j as int]);
                assert(false);
            }
            assert(newline_idx(t) == j - pos);
        }
        let end: usize = if j > pos && text[j - 1] == 13 {
            j - 1
        } else {
            j
        };
        let line: Vec<u8> = copy_range(text, pos, end);
        proof {
            let raw = t.take(j - pos);
            assert(raw =~= text@.subrange(pos as int, j as int));
            if j > pos && text@[j - 1] == 13 {
                assert(raw.len() > 0 && raw[raw.len() - 1] == 13);
                assert(line@ =~= raw.drop_last());
            } else {
                if raw.len() > 0 {
                    assert(raw[raw.len() - 1] == text@[j - 1]);
                }
                assert(line@ =~= raw);
            }
            assert(line@ == strip_cr(raw));
        }
        out.push(line);
        if j < text.len() {
            proof {
                assert(lines_of(t) == seq![strip_cr(t.take(newline_idx(t)))] + lines_of(
                    t.skip(newline_idx(t) + 1),
                ));
                assert(t.skip(j - pos + 1) =~= text@.skip(j + 1));
                assert(views_of(out@) =~= views_of(out@.drop_last()).push(line@));
                assert(views_of(out@.drop_last()) + lines_of(t) =~= views_of(out@) + lines_of(
                    text@.skip(j + 1),
                ));
            }
            pos = j + 1;
        } else {
            proof {
                assert(newline_idx(t) == t.len());
                assert(t.take(newline_idx(t)) =~= t);
                assert(lines_of(t) == seq![strip_cr(t)]);
                assert(text@.skip(text@.len() as int).len() == 0);
                assert(views_of(out@) =~= views_of(out@.drop_last()).push(line@));
                assert(views_of(out@.drop_last()) + lines_of(t) =~= views_of(out@) + lines_of(
                    text@.skip(text@.len() as int),
                ));
            }
            pos = text.len();
        }
    }
    proof {
        assert(text@.skip(pos as int).len() == 0);
        assert(views_of(out@) + lines_of(text@.skip(pos as int)) =~= views_of(out@));
    }
    out
}

/// Splits one line into its tokens, exactly as [`tokens_of`] describes.
pub fn tokenize(line: &[u8]) -> (r: Vec<Vec<u8>>)
    ensures
        views_of(r@) == tokens_of(line@),
{
    let mut out: Vec<Vec<u8>> = Vec::new();
    let mut pos: usize = 0;
    proof {
        assert(line@.skip(0) =~= line@);
        assert(views_of(out@) + tokens_of(line@) =~= tokens_of(line@));
    }
    while pos < line.len()
        invariant
            pos <= line@.len(),
            tokens_of(line@) == views_of(out@) + tokens_of(line@.skip(pos as int)),
        decreases line@.len() - pos,
    {
        let ghost t = line@.skip(pos as int);
        if is_ws_byte(line[pos]) {
            proof {
                assert(t[0] == line@[pos as int]);
                assert(t.skip(1) =~= line@.skip(pos + 1));
                assert(tokens_of(t) == tokens_of(line@.skip(pos + 1)));
            }
            pos = pos + 1;
        } else {
            let mut j: usize = pos;
            while j < line.len() && !is_ws_byte(line[j])
                invariant
                    pos <= j <= line@.len(),
                    forall|k: int| pos <= k < j ==> !is_ws(line@[k]),
                decreases line@.len() - j,
            {
                j = j + 1;
            }
            proof {
                lemma_ws_idx(t);
                assert forall|k: int| 0 <= k < j - pos implies !is_ws(t[k]) by {
                    assert(t[k] == line@[pos + k]);
                }
                if ws_idx(t) < j - pos {
                    assert(is_ws(t[ws_idx(t)]));
                    assert(is_ws(line@[pos + ws_idx(t)]));
                    assert(false);
                }
                if j - pos < ws_idx(t) {
                    assert(j < line@.len());
                    assert(t[j - pos] == line@[j as int]);
                    assert(false);
                }
                assert(ws_idx(t) == j - pos);
            }
            let tok: Vec<u8> = copy_range(line, pos, j);
            proof {
                assert(t[0] == line@[pos as int]);
                assert(!is_ws(t[0]));
                assert(tok@ =~= t.take(j - pos));
                assert(tokens_of(t) == seq![t.take(ws_idx(t))] + tokens_of(t.skip(ws_idx(t))));
                assert(t.skip(j - pos) =~= line@.skip(j as int));
            }
            out.push(tok);
            proof {
                assert(views_of(out@) =~= views_of(out@.drop_last()).push(tok@));
                assert(views_of(out@.drop_last()) + tokens_of(t) =~= views_of(out@) + tokens_of(
                    line@.skip(j as int),
                ));
            }
            pos = j;
        }
    }
    proof {
        assert(line@.skip(pos as int).len() == 0);
        assert(views_of(out@) + tokens_of(line@.skip(pos as int)) =~= views_of(out@));
    }
    out
}

/// Recognizes a section delimiter line, exactly as [`is_delim_line`]
/// describes.
pub fn is_delim(line: &[u8]) -> (r: bool)
    ensures
        r == is_delim_line(line@),
{
    if line.len() == 0 {
        return false;
    }
    let mut k: usize = 0;
    while k < line.len()
        invariant
            k <= line@.len(),
            forall|i: int| 0 <= i < k ==> line@[i] == 61,
        decreases line@.len() - k,
    {
        if line[k] != 61 {
            return false;
        }
        k = k + 1;
    }
    true
}

/// Reads an unsigned 16-bit decimal number, exactly as [`is_u16_token`]
/// and [`dec_val`] describe: `None` on an empty token, a non-digit byte,
/// or a value above 65535.
pub fn parse_u16(tok: &[u8]) -> (r: Option<u16>)
    ensures
        is_u16_token(tok@) ==> r == Some(dec_val(tok@) as u16),
        !is_u16_token(tok@) ==> r is None,
{
    let mut acc: u32 = 0;
    let mut digits_ok: bool = true;
    let mut i: usize = 0;
    while i < tok.len()
        invariant
            i <= tok@.len(),
            digits_ok == all_digits(tok@.take(i as int)),
            acc <= 0x1_0000,
            digits_ok ==> acc == (if dec_val(tok@.take(i as int)) <= 0xFFFF {
                dec_val(tok@.take(i as int))
            } else {
                0x1_0000
            }),
        decreases tok@.len() - i,
    {
        let ghost pre = tok@.take(i as int);
        let ghost ext = tok@.take(i + 1);
        proof {
            assert(ext.drop_last() =~= pre);
            assert(ext.last() == tok@[i as int]);
            assert(dec_val(ext) == dec_val(pre) * 10 + (tok@[i as int] - 48));
        }
        let b = tok[i];
        if b < 48 || b > 57 {
            digits_ok = false;
            proof {
                assert(!is_digit(ext[i as int]));
            }
        } else if digits_ok {
            proof {
                assert forall|k: int| 0 <= k < ext.len() implies is_digit(ext[k]) by {
                    if k < i {
                        assert(is_digit(pre[k]));
                    }
                }
                assert(0 <= dec_val(pre)) by {
                    lemma_dec_val_nonneg(pre);
                }
            }
            let d = (b - 48) as u32;
            let next = acc * 10 + d;
            acc = if next > 0xFFFF {
                0x1_0000
            } else {
                next
            };
        } else {
            proof {
                assert(!all_digits(pre));
                let k = choose|k: int| 0 <= k < pre.len() && !is_digit(pre[k]);
                assert(!is_digit(ext[k]));
            }
        }
        i = i + 1;
    }
    proof {
        assert(tok@.take(i as int) =~= tok@);
    }
    if digits_ok && tok.len() > 0 && acc <= 0xFFFF {
        proof {
            lemma_dec_val_nonneg(tok@);
        }
        Some(acc as u16)
    } else {
        None
    }
}

pub proof fn lemma_dec_val_nonneg(s: Seq<u8>)
    requires
        all_digits(s),
    ensures
        dec_val(s) >= 0,
    decreases s.len(),
{
    if s.len() > 0 {
        assert forall|k: int| 0 <= k < s.drop_last().len() implies is_digit(s.drop_last()[k]) by {
            assert(s.drop_last()[k] == s[k]);
        }
        lemma_dec_val_nonneg(s.drop_last());
        assert(is_digit(s.last()));
    }
}

/// Byte-for-byte equality of two slices.
pub fn bytes_eq(a: &[u8], b: &[u8]) -> (r: bool)
    ensures
        r == (a@ == b@),
{
    if a.len() != b.len() {
        return false;
    }
    let mut i: usize = 0;
    while i < a.len()
        invariant
            i <= a@.len(),
            a@.len() == b@.len(),
            forall|k: int| 0 <= k < i ==> a@[k] == b@[k],
        decreases a@.len() - i,
    {
        if a[i] != b[i] {
            return false;
        }
        i = i + 1;
    }
    proof {
        assert(a@ =~= b@);
    }
    true
}

} // verus!
