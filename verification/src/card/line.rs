//! Content lines: splitting a card's bytes into lines, unfolding, and the
//! `group.NAME;params:value` syntax.

use vstd::prelude::*;
use vstd::utf8::{decode_utf8, encode_scalar, encode_utf8, valid_utf8};

use crate::text::{
    chars_of, copy_range, decode_utf8_bytes, encode_chars, eq_ic, eq_ignore_case,
    lemma_no_newline_concat, no_newline, push_all, string_of,
};

verus! {

/// A space or horizontal tab: a physical line starting with one continues
/// the previous content line.
pub open spec fn is_fold_byte(b: u8) -> bool {
    b == 0x20u8 || b == 0x09u8
}

/// The raw content lines of `bytes`: a new content line starts at the first
/// byte and after each line feed that is not followed by a space or tab;
/// every other byte belongs to the content line before it.
pub open spec fn raw_split(b: Seq<u8>) -> Seq<Seq<u8>>
    decreases b.len(),
{
    if b.len() == 0 {
        seq![]
    } else {
        let prev = raw_split(b.drop_last());
        let x = b.last();
        if b.len() == 1 || (b[b.len() - 2] == 0x0Au8 && !is_fold_byte(x)) {
            prev.push(seq![x])
        } else {
            prev.update(prev.len() - 1, prev.last().push(x))
        }
    }
}

/// The logical bytes of one raw content line: line breaks followed by a
/// space or tab are removed together with that byte, and a final line break
/// (CRLF, LF or a lone CR) is dropped.
pub open spec fn unfold_bytes(r: Seq<u8>) -> Seq<u8>
    decreases r.len(),
{
    if r.len() == 0 {
        seq![]
    } else if r[0] == 0x0Du8 && r.len() == 1 {
        seq![]
    } else if r[0] == 0x0Du8 && r[1] == 0x0Au8 {
        if r.len() == 2 {
            seq![]
        } else {
            unfold_bytes(r.subrange(3, r.len() as int))
        }
    } else if r[0] == 0x0Au8 {
        if r.len() == 1 {
            seq![]
        } else {
            unfold_bytes(r.subrange(2, r.len() as int))
        }
    } else {
        seq![r[0]] + unfold_bytes(r.subrange(1, r.len() as int))
    }
}

/// The same unfolding, on characters.
pub open spec fn unfold_chars(r: Seq<char>) -> Seq<char>
    decreases r.len(),
{
    if r.len() == 0 {
        seq![]
    } else if r[0] == '\r' && r.len() == 1 {
        seq![]
    } else if r[0] == '\r' && r[1] == '\n' {
        if r.len() == 2 {
            seq![]
        } else {
            unfold_chars(r.subrange(3, r.len() as int))
        }
    } else if r[0] == '\n' {
        if r.len() == 1 {
            seq![]
        } else {
            unfold_chars(r.subrange(2, r.len() as int))
        }
    } else {
        seq![r[0]] + unfold_chars(r.subrange(1, r.len() as int))
    }
}

/// Splitting a content line's text into its head, its parameters and its
/// value: `;` outside double quotes ends a segment, the first `:` outside
/// double quotes ends the head and parameters, and the rest is the value.
pub open spec fn head_scan(t: Seq<char>, i: int, start: int, q: bool, segs: Seq<Seq<char>>) -> (
    Seq<char>,
    Seq<Seq<char>>,
    Seq<char>,
)
    decreases t.len() - i,
{
    if i >= t.len() || i < 0 {
        let s = segs.push(t.subrange(start, t.len() as int));
        (s[0], s.drop_first(), seq![])
    } else if t[i] == '"' {
        head_scan(t, i + 1, start, !q, segs)
    } else if t[i] == ';' && !q {
        head_scan(t, i + 1, i + 1, q, segs.push(t.subrange(start, i)))
    } else if t[i] == ':' && !q {
        let s = segs.push(t.subrange(start, i));
        (s[0], s.drop_first(), t.subrange(i + 1, t.len() as int))
    } else {
        head_scan(t, i + 1, start, q, segs)
    }
}

pub open spec fn head_split(t: Seq<char>) -> (Seq<char>, Seq<Seq<char>>, Seq<char>) {
    head_scan(t, 0, 0, false, seq![])
}

/// `i` is the position of the first `c` in `s`.
pub open spec fn first_at(s: Seq<char>, c: char, i: int) -> bool {
    0 <= i < s.len() && s[i] == c && forall|j: int| 0 <= j < i ==> s[j] != c
}

/// The group and the name of a head: the text before and after its first `.`.
pub open spec fn split_group(h: Seq<char>) -> (Option<Seq<char>>, Seq<char>) {
    if exists|i: int| first_at(h, '.', i) {
        let i = choose|i: int| first_at(h, '.', i);
        (Some(h.take(i)), h.skip(i + 1))
    } else {
        (None, h)
    }
}

/// The parts of a content line, as a model.
pub struct LineView {
    pub raw: Seq<u8>,
    pub group: Option<Seq<char>>,
    pub name: Seq<char>,
    pub params: Seq<Seq<char>>,
    pub value: Seq<char>,
}

/// The content line that a raw line reads as: `None` when its unfolded bytes
/// are not valid UTF-8.
pub open spec fn parse_line(raw: Seq<u8>) -> Option<LineView> {
    let u = unfold_bytes(raw);
    if valid_utf8(u) {
        let (head, params, value) = head_split(decode_utf8(u));
        let (group, name) = split_group(head);
        Some(LineView { raw, group, name, params, value })
    } else {
        None
    }
}


/// The raw content lines concatenate back to the bytes they were split from.
pub proof fn lemma_raw_split_flatten(b: Seq<u8>)
    ensures
        raw_split(b).flatten() == b,
        b.len() > 0 ==> raw_split(b).len() > 0,
        forall|k: int| 0 <= k < raw_split(b).len() ==> (#[trigger] raw_split(b)[k]).len() > 0,
    decreases b.len(),
{
    broadcast use Seq::lemma_flatten_push;

    if b.len() > 0 {
        let prev = raw_split(b.drop_last());
        lemma_raw_split_flatten(b.drop_last());
        let x = b.last();
        if b.len() == 1 || (b[b.len() - 2] == 0x0Au8 && !is_fold_byte(x)) {
            assert(b.drop_last().push(x) == b);
        } else {
            let n = prev.len() - 1;
            assert(prev == prev.drop_last().push(prev.last()));
            let upd = prev.update(n, prev.last().push(x));
            assert(upd == prev.drop_last().push(prev.last().push(x)));
            assert(upd.flatten() == prev.drop_last().flatten() + prev.last().push(x));
            assert(prev.flatten() == prev.drop_last().flatten() + prev.last());
            assert(b.drop_last().push(x) == b);
        }
    }
}

/// Raw content lines as splitting gives them: none empty, a line feed
/// inside one is followed by a space or tab, every one but the last ends in
/// a line feed, and every one but the first starts with neither a space nor
/// a tab.
pub open spec fn proper_raws(rs: Seq<Seq<u8>>) -> bool {
    &&& forall|i: int| 0 <= i < rs.len() ==> (#[trigger] rs[i]).len() > 0
    &&& forall|i: int, j: int|
        0 <= i < rs.len() && 0 <= j < rs[i].len() - 1 && #[trigger] rs[i][j] == 0x0Au8 ==> is_fold_byte(rs[i][j + 1])
    &&& forall|i: int| 0 <= i < rs.len() - 1 ==> (#[trigger] rs[i]).last() == 0x0Au8
    &&& forall|i: int| 0 < i < rs.len() ==> !is_fold_byte((#[trigger] rs[i])[0])
}

/// The raw lines of any bytes are proper.
pub proof fn lemma_split_proper(b: Seq<u8>)
    ensures
        proper_raws(raw_split(b)),
    decreases b.len(),
{
    broadcast use Seq::lemma_flatten_push;

    if b.len() > 0 {
        let bp = b.drop_last();
        let prev = raw_split(bp);
        lemma_split_proper(bp);
        lemma_raw_split_flatten(bp);
        let x = b.last();
        let r = raw_split(b);
        if bp.len() > 0 {
            assert(prev.len() > 0);
            assert(prev == prev.drop_last().push(prev.last()));
            assert(prev.flatten() == prev.drop_last().flatten() + prev.last());
            assert(prev.last().len() > 0);
            assert(bp.last() == prev.last().last());
            assert(b[b.len() - 2] == bp.last());
        }
        if b.len() == 1 || (b[b.len() - 2] == 0x0Au8 && !is_fold_byte(x)) {
            assert(r == prev.push(seq![x]));
            assert forall|i: int, j: int|
                0 <= i < r.len() && 0 <= j < r[i].len() - 1 && #[trigger] r[i][j] == 0x0Au8 implies is_fold_byte(r[i][j + 1]) by {
                if i < prev.len() {
                    assert(r[i] == prev[i]);
                }
            }
            assert forall|i: int| 0 <= i < r.len() - 1 implies (#[trigger] r[i]).last() == 0x0Au8 by {
                assert(r[i] == prev[i]);
            }
            assert forall|i: int| 0 < i < r.len() implies !is_fold_byte((#[trigger] r[i])[0]) by {
                if i < prev.len() {
                    assert(r[i] == prev[i]);
                }
            }
        } else {
            let n = prev.len() - 1;
            let lastl = prev.last().push(x);
            assert(r == prev.update(n, lastl));
            assert forall|i: int| 0 <= i < r.len() implies (#[trigger] r[i]).len() > 0 by {
                if i != n {
                    assert(r[i] == prev[i]);
                }
            }
            assert forall|i: int, j: int|
                0 <= i < r.len() && 0 <= j < r[i].len() - 1 && #[trigger] r[i][j] == 0x0Au8 implies is_fold_byte(r[i][j + 1]) by {
                if i != n {
                    assert(r[i] == prev[i]);
                } else {
                    if j < prev.last().len() - 1 {
                        assert(r[i][j] == prev[n][j] && r[i][j + 1] == prev[n][j + 1]);
                    } else {
                        assert(j == prev.last().len() - 1);
                        assert(r[i][j] == bp.last());
                    }
                }
            }
            assert forall|i: int| 0 <= i < r.len() - 1 implies (#[trigger] r[i]).last() == 0x0Au8 by {
                assert(r[i] == prev[i]);
            }
            assert forall|i: int| 0 < i < r.len() implies !is_fold_byte((#[trigger] r[i])[0]) by {
                if i != n {
                    assert(r[i] == prev[i]);
                } else {
                    assert(r[i][0] == prev[n][0]);
                }
            }
        }
    }
}

/// One raw line whose line feeds, but a final one, are followed by a space
/// or tab splits into itself.
proof fn lemma_split_single(c: Seq<u8>)
    requires
        c.len() > 0,
        forall|j: int| 0 <= j < c.len() - 1 && #[trigger] c[j] == 0x0Au8 ==> is_fold_byte(c[j + 1]),
    ensures
        raw_split(c) == seq![c],
    decreases c.len(),
{
    if c.len() == 1 {
        assert(seq![c.last()] =~= c);
        assert(raw_split(c.drop_last()) =~= Seq::<Seq<u8>>::empty());
        assert(raw_split(c) == Seq::<Seq<u8>>::empty().push(seq![c.last()]));
        assert(raw_split(c) =~= seq![c]);
    } else {
        let cp = c.drop_last();
        assert forall|j: int| 0 <= j < cp.len() - 1 && #[trigger] cp[j] == 0x0Au8 implies is_fold_byte(cp[j + 1]) by {
            assert(c[j] == cp[j] && c[j + 1] == cp[j + 1]);
        }
        lemma_split_single(cp);
        if c[c.len() - 2] == 0x0Au8 {
            assert(is_fold_byte(c[c.len() - 1]));
        }
        assert(cp.push(c.last()) =~= c);
        assert(c.drop_last() == cp);
        let prev = raw_split(cp);
        assert(prev == seq![cp]);
        assert(!(c[c.len() - 2] == 0x0Au8 && !is_fold_byte(c.last())));
        assert(raw_split(c) == prev.update(prev.len() - 1, prev.last().push(c.last())));
        assert(prev.update(0, cp.push(c.last())) =~= seq![c]);
    }
}

/// Bytes after a line feed split apart from the bytes before it, unless
/// they start with a space or tab.
proof fn lemma_split_concat(a: Seq<u8>, c: Seq<u8>)
    requires
        a.len() > 0,
        a.last() == 0x0Au8,
        c.len() > 0 ==> !is_fold_byte(c[0]),
    ensures
        raw_split(a + c) == raw_split(a) + raw_split(c),
    decreases c.len(),
{
    if c.len() == 0 {
        assert(a + c =~= a);
        assert(raw_split(a) + raw_split(c) =~= raw_split(a));
    } else {
        let b = a + c;
        let cp = c.drop_last();
        assert(b.drop_last() =~= a + cp);
        lemma_split_concat(a, cp);
        lemma_raw_split_flatten(cp);
        let x = c.last();
        assert(b.last() == x);
        if c.len() == 1 {
            assert(b[b.len() - 2] == a.last());
            assert(x == c[0]);
            assert(cp.len() == 0);
            assert(raw_split(cp) =~= Seq::<Seq<u8>>::empty());
            assert(raw_split(c) == raw_split(cp).push(seq![x]));
            assert(raw_split(b) =~= raw_split(a) + raw_split(c));
        } else {
            assert(b[b.len() - 2] == c[c.len() - 2]);
            assert(raw_split(cp).len() > 0);
            assert(raw_split(b) =~= raw_split(a) + raw_split(c));
        }
    }
}

/// Proper raw lines written one after the other split back into
/// themselves.
pub proof fn lemma_proper_resplit(rs: Seq<Seq<u8>>)
    requires
        proper_raws(rs),
    ensures
        raw_split(rs.flatten()) == rs,
    decreases rs.len(),
{
    broadcast use Seq::lemma_flatten_push;

    if rs.len() > 0 {
        let rp = rs.drop_last();
        let c = rs.last();
        assert(rs == rp.push(c));
        assert(proper_raws(rp)) by {
            assert forall|i: int| 0 <= i < rp.len() implies (#[trigger] rp[i]).len() > 0 by {
                assert(rp[i] == rs[i]);
            }
            assert forall|i: int, j: int|
                0 <= i < rp.len() && 0 <= j < rp[i].len() - 1 && #[trigger] rp[i][j] == 0x0Au8 implies is_fold_byte(rp[i][j + 1]) by {
                assert(rp[i] == rs[i]);
            }
            assert forall|i: int| 0 <= i < rp.len() - 1 implies (#[trigger] rp[i]).last() == 0x0Au8 by {
                assert(rp[i] == rs[i]);
            }
            assert forall|i: int| 0 < i < rp.len() implies !is_fold_byte((#[trigger] rp[i])[0]) by {
                assert(rp[i] == rs[i]);
            }
        }
        lemma_proper_resplit(rp);
        assert(c.len() > 0);
        assert forall|j: int| 0 <= j < c.len() - 1 && #[trigger] c[j] == 0x0Au8 implies is_fold_byte(c[j + 1]) by {
            assert(rs[rs.len() - 1][j] == c[j]);
        }
        lemma_split_single(c);
        assert(rs.flatten() == rp.flatten() + c);
        if rp.len() == 0 {
            assert(rp.flatten() =~= Seq::<u8>::empty());
            assert(rp.flatten() + c =~= c);
            assert(seq![c] =~= rs);
        } else {
            let a = rp.flatten();
            assert(rp == rp.drop_last().push(rp.last()));
            assert(a == rp.drop_last().flatten() + rp.last());
            assert(rp.last() == rs[rs.len() - 2]);
            assert(rp.last().len() > 0);
            assert(a.last() == rp.last().last());
            assert(!is_fold_byte(rs[rs.len() - 1][0]));
            lemma_split_concat(a, c);
            assert(rp + seq![c] =~= rs);
        }
    }
}

/// Well-formed lines with proper raw lines, written out, read back as
/// themselves.
pub proof fn lemma_lines_reparse(ls: Seq<LineView>)
    requires
        forall|k: int| 0 <= k < ls.len() ==> (#[trigger] ls[k]).wf(),
        proper_raws(ls.map_values(|l: LineView| l.raw)),
    ensures
        parse_lines(lines_bytes(ls)) == Some(ls),
{
    let rs = ls.map_values(|l: LineView| l.raw);
    lemma_proper_resplit(rs);
    assert(raw_split(lines_bytes(ls)) == rs);
    assert forall|k: int| 0 <= k < rs.len() implies (#[trigger] parse_line(rs[k])) is Some by {
        assert(rs[k] == ls[k].raw);
        assert(ls[k].wf());
    }
    assert(Seq::new(rs.len(), |k: int| parse_line(rs[k])->0) =~= ls) by {
        assert forall|k: int| 0 <= k < rs.len() implies parse_line(rs[k])->0 == ls[k] by {
            assert(rs[k] == ls[k].raw);
            assert(ls[k].wf());
        }
    }
}

/// Whether a character is one of the ASCII white space characters.
pub open spec fn is_space_char(c: char) -> bool {
    let u = c as u32;
    u == 32 || u == 9 || u == 10 || u == 12 || u == 13
}

/// Unfolding keeps only bytes of the raw line.
proof fn lemma_unfold_bytes_spaces(r: Seq<u8>)
    requires
        forall|i: int| 0 <= i < r.len() ==> is_ascii_space(#[trigger] r[i]),
    ensures
        forall|i: int| 0 <= i < unfold_bytes(r).len() ==> is_ascii_space(#[trigger] unfold_bytes(r)[i]),
    decreases r.len(),
{
    if r.len() > 0 {
        if r[0] == 0x0Du8 && r.len() == 1 {
        } else if r[0] == 0x0Du8 && r[1] == 0x0Au8 {
            if r.len() > 2 {
                let q = r.subrange(3, r.len() as int);
                assert forall|i: int| 0 <= i < q.len() implies is_ascii_space(#[trigger] q[i]) by {
                    assert(q[i] == r[i + 3]);
                }
                lemma_unfold_bytes_spaces(q);
                assert(unfold_bytes(r) == unfold_bytes(q));
            }
        } else if r[0] == 0x0Au8 {
            if r.len() > 1 {
                let q = r.subrange(2, r.len() as int);
                assert forall|i: int| 0 <= i < q.len() implies is_ascii_space(#[trigger] q[i]) by {
                    assert(q[i] == r[i + 2]);
                }
                lemma_unfold_bytes_spaces(q);
                assert(unfold_bytes(r) == unfold_bytes(q));
            }
        } else {
            let rest = r.subrange(1, r.len() as int);
            assert forall|i: int| 0 <= i < rest.len() implies is_ascii_space(#[trigger] rest[i]) by {
                assert(rest[i] == r[i + 1]);
            }
            lemma_unfold_bytes_spaces(rest);
            let u = unfold_bytes(r);
            assert(u == seq![r[0]] + unfold_bytes(rest));
            assert forall|i: int| 0 <= i < u.len() implies is_ascii_space(#[trigger] u[i]) by {
                if i > 0 {
                    assert(u[i] == unfold_bytes(rest)[i - 1]);
                }
            }
        }
    }
}

/// A text whose encoding is ASCII white space is ASCII white space.
proof fn lemma_encode_spaces(x: Seq<char>)
    requires
        forall|i: int| 0 <= i < encode_utf8(x).len() ==> is_ascii_space(#[trigger] encode_utf8(x)[i]),
    ensures
        forall|k: int| 0 <= k < x.len() ==> is_space_char(#[trigger] x[k]),
    decreases x.len(),
{
    if x.len() > 0 {
        lemma_encode_first(x);
        lemma_encode_scalar(x[0]);
        let head = encode_scalar(x[0] as u32);
        let rest = x.subrange(1, x.len() as int);
        assert(encode_utf8(x)[0] == head[0]);
        assert forall|i: int| 0 <= i < encode_utf8(rest).len() implies is_ascii_space(#[trigger] encode_utf8(rest)[i]) by {
            assert(encode_utf8(x)[head.len() + i] == encode_utf8(rest)[i]);
        }
        lemma_encode_spaces(rest);
        assert((x[0] as u32) < 0x80);
        assert forall|k: int| 0 <= k < x.len() implies is_space_char(#[trigger] x[k]) by {
            if k > 0 {
                assert(x[k] == rest[k - 1]);
            } else {
                assert(head == seq![(x[0] as u32) as u8]);
                let u = x[0] as u32;
                assert(u as u8 == u);
            }
        }
    }
}

/// The head scan of white space finds no parameter or value: the head is
/// the whole text.
proof fn lemma_scan_spaces(t: Seq<char>, i: int)
    requires
        0 <= i <= t.len(),
        forall|k: int| 0 <= k < t.len() ==> is_space_char(#[trigger] t[k]),
    ensures
        head_scan(t, i, 0, false, seq![]).0 == t,
    decreases t.len() - i,
{
    if i < t.len() {
        assert(is_space_char(t[i]));
        assert(t[i] != '"' && t[i] != ';' && t[i] != ':') by {
            assert(('"' as u32) == 34 && (';' as u32) == 59 && (':' as u32) == 58);
        }
        lemma_scan_spaces(t, i + 1);
    } else {
        assert(t.subrange(0, t.len() as int) =~= t);
    }
}

/// The name of a blank line is white space.
pub proof fn lemma_blank_name(l: LineView)
    requires
        l.wf(),
        forall|i: int| 0 <= i < l.raw.len() ==> is_ascii_space(#[trigger] l.raw[i]),
    ensures
        forall|k: int| 0 <= k < l.name.len() ==> is_space_char(#[trigger] l.name[k]),
{
    let u = unfold_bytes(l.raw);
    lemma_unfold_bytes_spaces(l.raw);
    assert(valid_utf8(u));
    let t = decode_utf8(u);
    vstd::utf8::decode_utf8_encode_utf8(u);
    assert(encode_utf8(t) == u);
    lemma_encode_spaces(t);
    lemma_scan_spaces(t, 0);
    assert(!exists|i: int| first_at(t, '.', i)) by {
        if exists|i: int| first_at(t, '.', i) {
            let i = choose|i: int| first_at(t, '.', i);
            assert(is_space_char(t[i]));
            assert(('.' as u32) == 46);
        }
    }
}

/// In the encoding of a text whose line feeds, but a final one, are
/// followed by a space, every line feed byte but a final one is followed by
/// a space byte.
proof fn lemma_encode_lf_follow(x: Seq<char>)
    requires
        newlines_continue(x),
    ensures
        forall|j: int| 0 <= j < encode_utf8(x).len() - 1 && #[trigger] encode_utf8(x)[j] == 0x0Au8 ==> is_fold_byte(
            encode_utf8(x)[j + 1],
        ),
    decreases x.len(),
{
    if x.len() > 0 {
        lemma_encode_first(x);
        lemma_encode_scalar(x[0]);
        lemma_ascii_byte(x[0]);
        let h = encode_scalar(x[0] as u32);
        let rest = x.subrange(1, x.len() as int);
        let e = encode_utf8(x);
        assert(newlines_continue(rest)) by {
            assert forall|j: int| 0 <= j < rest.len() - 1 && #[trigger] rest[j] == '\n' implies rest[j + 1] == ' ' by {
                assert(x[j + 1] == rest[j]);
            }
        }
        lemma_encode_lf_follow(rest);
        let er = encode_utf8(rest);
        assert forall|j: int| 0 <= j < e.len() - 1 && #[trigger] e[j] == 0x0Au8 implies is_fold_byte(e[j + 1]) by {
            if j < h.len() {
                if (x[0] as u32) < 0x80 {
                    assert(j == 0);
                    assert(x[0] == '\n');
                    assert(rest.len() > 0);
                    assert(x[1] == ' ');
                    assert(rest[0] == ' ');
                    lemma_encode_first(rest);
                    lemma_encode_scalar(rest[0]);
                    lemma_ascii_byte(rest[0]);
                    assert(e[1] == er[0]);
                    assert((' ' as u32) == 32);
                } else {
                    assert(h[j] >= 0x80);
                }
            } else {
                assert(e[j] == er[j - h.len()]);
                assert(e[j + 1] == er[j - h.len() + 1]);
            }
        }
    }
}

/// The first byte of a folded text is neither a space nor a tab when its
/// first character is neither.
proof fn lemma_fold_first_byte(t: Seq<char>, eol: Seq<char>)
    requires
        t.len() > 0,
        t[0] != ' ',
        t[0] != '\t',
    ensures
        encode_utf8(fold_chars(t, eol)).len() > 0,
        !is_fold_byte(encode_utf8(fold_chars(t, eol))[0]),
{
    let f = fold_chars(t, eol);
    assert(char_width(t[0]) <= 4);
    assert(f[0] == t[0]);
    lemma_encode_first(f);
    lemma_encode_scalar(f[0]);
    let u = f[0] as u32;
    let e = encode_utf8(f);
    assert(e[0] == encode_scalar(u)[0]);
    if u < 0x80 {
        assert(u as u8 == u);
        vstd::utf8::char_u32_cast(f[0], u);
        vstd::utf8::char_u32_cast(' ', 32);
        vstd::utf8::char_u32_cast('\t', 9);
        assert((' ' as u32) == 32 && ('\t' as u32) == 9);
        if u == 32 {
            assert(f[0] == (32u32 as char));
        }
        if u == 9 {
            assert(f[0] == (9u32 as char));
        }
    }
}

/// Raw lines of a card with one line rewritten as a built line.
pub proof fn lemma_built_raw(t: Seq<char>, eol: Seq<char>)
    requires
        forall|i: int| 0 <= i < t.len() ==> #[trigger] t[i] != '\n' && t[i] != '\r',
        eol == seq!['\n'] || eol == seq!['\r', '\n'],
        t.len() > 0,
        t[0] != ' ',
        t[0] != '\t',
    ensures
        built_line(t, eol).raw == encode_utf8(fold_chars(t, eol)),
        built_line(t, eol).raw.len() > 0,
        built_line(t, eol).raw.last() == 0x0Au8,
        !is_fold_byte(built_line(t, eol).raw[0]),
        forall|j: int| 0 <= j < built_line(t, eol).raw.len() - 1 && #[trigger] built_line(t, eol).raw[j] == 0x0Au8
            ==> is_fold_byte(built_line(t, eol).raw[j + 1]),
{
    let f = fold_chars(t, eol);
    assert(no_newline(t));
    lemma_built_line(t, eol);
    lemma_built_text(t, eol);
    lemma_fold_newlines_continue(t, 0, eol);
    lemma_encode_lf_follow(f);
    lemma_fold_first_byte(t, eol);
    let r = encode_utf8(f);
    assert(eol_of(r).len() > 0);
}

/// Splits bytes into raw content lines.
fn split_raw(b: &[u8]) -> (r: Vec<Vec<u8>>)
    ensures
        r@.map_values(|v: Vec<u8>| v@) == raw_split(b@),
{
    let mut lines: Vec<Vec<u8>> = Vec::new();
    let mut cur: Vec<u8> = Vec::new();
    let n = b.len();
    let mut i: usize = 0;
    while i < n
        invariant
            n == b@.len(),
            i <= n,
            i == 0 ==> lines@.len() == 0 && cur@.len() == 0,
            i > 0 ==> lines@.map_values(|v: Vec<u8>| v@).push(cur@) == raw_split(b@.take(i as int)),
        decreases n - i,
    {
        let x = b[i];
        let ghost before = b@.take(i as int);
        let ghost after = b@.take(i + 1);
        assert(after.drop_last() == before);
        assert(after.last() == x);
        if i == 0 {
            cur.push(x);
            assert(raw_split(before) =~= Seq::<Seq<u8>>::empty());
            assert(cur@ =~= seq![x]);
            assert(lines@.map_values(|v: Vec<u8>| v@) =~= Seq::<Seq<u8>>::empty());
            assert(lines@.map_values(|v: Vec<u8>| v@).push(cur@) =~= raw_split(after));
        } else if b[i - 1] == 0x0Au8 && !(x == 0x20u8 || x == 0x09u8) {
            assert(after[after.len() - 2] == b@[i - 1]);
            let ghost old_lines = lines@.map_values(|v: Vec<u8>| v@);
            let ghost old_cur = cur@;
            assert(raw_split(before) == old_lines.push(old_cur));
            lines.push(cur);
            cur = Vec::new();
            cur.push(x);
            assert(lines@.map_values(|v: Vec<u8>| v@) =~= old_lines.push(old_cur));
            assert(cur@ =~= seq![x]);
            assert(!is_fold_byte(x));
            assert(raw_split(after) == raw_split(after.drop_last()).push(seq![after.last()]));
            assert(lines@.map_values(|v: Vec<u8>| v@).push(cur@) =~= raw_split(after));
        } else {
            assert(after[after.len() - 2] == b@[i - 1]);
            let ghost old_cur = cur@;
            cur.push(x);
            let ghost prev = raw_split(before);
            assert(prev.last() == old_cur);
            assert(lines@.map_values(|v: Vec<u8>| v@).push(cur@) =~= prev.update(
                prev.len() - 1,
                prev.last().push(x),
            ));
        }
        i += 1;
    }
    assert(b@.take(n as int) == b@);
    if n > 0 {
        let ghost old_lines = lines@.map_values(|v: Vec<u8>| v@);
        lines.push(cur);
        assert(lines@.map_values(|v: Vec<u8>| v@) =~= old_lines.push(lines@[lines@.len() - 1]@));
    } else {
        assert(lines@.map_values(|v: Vec<u8>| v@) =~= raw_split(b@));
    }
    lines
}

/// Unfolds one raw content line.
fn unfold(r: &[u8]) -> (u: Vec<u8>)
    ensures
        u@ == unfold_bytes(r@),
{
    let mut out: Vec<u8> = Vec::new();
    let n = r.len();
    let mut i: usize = 0;
    assert(r@.subrange(0, n as int) == r@);
    assert(out@ + unfold_bytes(r@) == unfold_bytes(r@));
    while i < n
        invariant
            n == r@.len(),
            i <= n,
            unfold_bytes(r@) == out@ + unfold_bytes(r@.subrange(i as int, n as int)),
        decreases n - i,
    {
        let ghost rest = r@.subrange(i as int, n as int);
        if r[i] == 0x0Du8 && i + 1 == n {
            assert(unfold_bytes(rest) == Seq::<u8>::empty());
            i = n;
        } else if r[i] == 0x0Du8 && r[i + 1] == 0x0Au8 {
            if i + 2 == n {
                assert(unfold_bytes(rest) == Seq::<u8>::empty());
                i = n;
            } else {
                assert(rest.subrange(3, rest.len() as int) == r@.subrange(i + 3, n as int));
                i = i + 3;
            }
        } else if r[i] == 0x0Au8 {
            if i + 1 == n {
                assert(unfold_bytes(rest) == Seq::<u8>::empty());
                i = n;
            } else {
                assert(rest.subrange(2, rest.len() as int) == r@.subrange(i + 2, n as int));
                i = i + 2;
            }
        } else {
            assert(rest.subrange(1, rest.len() as int) == r@.subrange(i + 1, n as int));
            out.push(r[i]);
            i = i + 1;
        }
        proof {
            if i == n {
                assert(r@.subrange(n as int, n as int) == Seq::<u8>::empty());
            }
        }
    }
    assert(out@ + Seq::<u8>::empty() == out@);
    out
}


/// No byte of `s` is a line feed.
pub open spec fn no_lf(s: Seq<u8>) -> bool {
    forall|i: int| 0 <= i < s.len() ==> s[i] != 0x0Au8
}

/// Unfolded bytes hold no line feed.
proof fn lemma_unfold_bytes_no_lf(r: Seq<u8>)
    ensures
        no_lf(unfold_bytes(r)),
    decreases r.len(),
{
    if r.len() == 0 {
    } else if r[0] == 0x0Du8 && r.len() == 1 {
    } else if r[0] == 0x0Du8 && r[1] == 0x0Au8 {
        if r.len() > 2 {
            lemma_unfold_bytes_no_lf(r.subrange(3, r.len() as int));
        }
    } else if r[0] == 0x0Au8 {
        if r.len() > 1 {
            lemma_unfold_bytes_no_lf(r.subrange(2, r.len() as int));
        }
    } else {
        lemma_unfold_bytes_no_lf(r.subrange(1, r.len() as int));
        let t = unfold_bytes(r.subrange(1, r.len() as int));
        assert forall|i: int| 0 <= i < (seq![r[0]] + t).len() implies (seq![r[0]] + t)[i]
            != 0x0Au8 by {
            if i > 0 {
                assert((seq![r[0]] + t)[i] == t[i - 1]);
            }
        }
    }
}

/// Unfolded characters hold no line feed.
pub proof fn lemma_unfold_chars_no_newline(r: Seq<char>)
    ensures
        no_newline(unfold_chars(r)),
    decreases r.len(),
{
    if r.len() == 0 {
    } else if r[0] == '\r' && r.len() == 1 {
    } else if r[0] == '\r' && r[1] == '\n' {
        if r.len() > 2 {
            lemma_unfold_chars_no_newline(r.subrange(3, r.len() as int));
        }
    } else if r[0] == '\n' {
        if r.len() > 1 {
            lemma_unfold_chars_no_newline(r.subrange(2, r.len() as int));
        }
    } else {
        lemma_unfold_chars_no_newline(r.subrange(1, r.len() as int));
        let t = unfold_chars(r.subrange(1, r.len() as int));
        assert forall|i: int| 0 <= i < (seq![r[0]] + t).len() implies (seq![r[0]] + t)[i]
            != '\n' by {
            if i > 0 {
                assert((seq![r[0]] + t)[i] == t[i - 1]);
            }
        }
    }
}

/// The encoding of a character: one byte equal to it when it is ASCII,
/// otherwise bytes that are all at least 0x80.
pub proof fn lemma_encode_scalar(c: char)
    ensures
        (c as u32) < 0x80 ==> encode_scalar(c as u32) == seq![(c as u32) as u8],
        (c as u32) >= 0x80 ==> forall|j: int|
            0 <= j < encode_scalar(c as u32).len() ==> #[trigger] encode_scalar(c as u32)[j] >= 0x80,
        encode_scalar(c as u32).len() >= 1,
{
    let v = c as u32;
    vstd::utf8::char_is_scalar(c);
    if v < 0x80 {
        assert((v & 0x7F) as u8 == v as u8) by (bit_vector)
            requires
                v < 0x80,
        ;
    } else {
        assert(forall|x: u8| #[trigger] (0xC0u8 | x) >= 0x80u8) by (bit_vector);
        assert(forall|x: u8| #[trigger] (0xE0u8 | x) >= 0x80u8) by (bit_vector);
        assert(forall|x: u8| #[trigger] (0xF0u8 | x) >= 0x80u8) by (bit_vector);
        assert(forall|x: u8| #[trigger] (0x80u8 | x) >= 0x80u8) by (bit_vector);
    }
}

/// The byte of an ASCII character identifies it.
pub proof fn lemma_ascii_byte(c: char)
    ensures
        (c as u32) < 0x80 ==> (((c as u32) as u8 == 0x0Au8) <==> c == '\n'),
        (c as u32) < 0x80 ==> (((c as u32) as u8 == 0x0Du8) <==> c == '\r'),
        (c as u32) < 0x80 ==> (((c as u32) as u8 == 0x20u8) <==> c == ' '),
{
    let u = c as u32;
    vstd::utf8::char_u32_cast(c, u);
    if u < 0x80 {
        assert(u as u8 == u);
        assert(('\n' as u32) == 10);
        assert(('\r' as u32) == 13);
        assert((' ' as u32) == 32);
        vstd::utf8::char_u32_cast('\n', 10);
        vstd::utf8::char_u32_cast('\r', 13);
        vstd::utf8::char_u32_cast(' ', 32);
    }
}

/// The encoding of a text starts with the encoding of its first character.
proof fn lemma_encode_first(x: Seq<char>)
    requires
        x.len() > 0,
    ensures
        encode_utf8(x) == encode_scalar(x[0] as u32) + encode_utf8(x.subrange(1, x.len() as int)),
{
    assert(x.drop_first() == x.subrange(1, x.len() as int));
}

/// A decoded text holds a line feed only where its bytes do.
proof fn lemma_encode_newline(x: Seq<char>, k: int)
    requires
        0 <= k < x.len(),
        x[k] == '\n',
    ensures
        !no_lf(encode_utf8(x)),
    decreases x.len(),
{
    lemma_encode_first(x);
    lemma_encode_scalar(x[0]);
    let head = encode_scalar(x[0] as u32);
    let rest = encode_utf8(x.subrange(1, x.len() as int));
    if k == 0 {
        assert(encode_utf8(x)[0] == 0x0Au8);
    } else {
        lemma_encode_newline(x.subrange(1, x.len() as int), k - 1);
        let j = choose|j: int| 0 <= j < rest.len() && rest[j] == 0x0Au8;
        assert(encode_utf8(x)[head.len() + j] == rest[j]);
    }
}

/// Valid UTF-8 without line feed bytes decodes to text without line feeds.
proof fn lemma_decode_no_newline(b: Seq<u8>)
    requires
        valid_utf8(b),
        no_lf(b),
    ensures
        no_newline(decode_utf8(b)),
{
    vstd::utf8::decode_utf8_encode_utf8(b);
    let x = decode_utf8(b);
    if !no_newline(x) {
        let k = choose|k: int| 0 <= k < x.len() && x[k] == '\n';
        lemma_encode_newline(x, k);
    }
}

/// Unfolding a prefix without CR or LF bytes keeps that prefix.
proof fn lemma_unfold_bytes_plain_prefix(p: Seq<u8>, q: Seq<u8>)
    requires
        forall|j: int| 0 <= j < p.len() ==> #[trigger] p[j] >= 0x80,
    ensures
        unfold_bytes(p + q) == p + unfold_bytes(q),
    decreases p.len(),
{
    if p.len() > 0 {
        let pq = p + q;
        assert(pq[0] == p[0]);
        assert(pq.subrange(1, pq.len() as int) == p.subrange(1, p.len() as int) + q);
        lemma_unfold_bytes_plain_prefix(p.subrange(1, p.len() as int), q);
        assert(seq![p[0]] + (p.subrange(1, p.len() as int) + unfold_bytes(q)) == p + unfold_bytes(q));
    } else {
        assert(p + q == q);
        assert(p + unfold_bytes(q) == unfold_bytes(q));
    }
}

/// Every line feed in `x`, but a final one, is followed by a space.
pub open spec fn newlines_continue(x: Seq<char>) -> bool {
    forall|j: int| 0 <= j < x.len() - 1 && #[trigger] x[j] == '\n' ==> x[j + 1] == ' '
}

/// Unfolding the UTF-8 encoding of a text is encoding its unfolded text,
/// when every line feed but a final one is followed by a space.
pub proof fn lemma_unfold_encode(x: Seq<char>)
    requires
        newlines_continue(x),
    ensures
        unfold_bytes(encode_utf8(x)) == encode_utf8(unfold_chars(x)),
    decreases x.len(),
{
    if x.len() == 0 {
        assert(encode_utf8(x) == Seq::<u8>::empty());
    } else {
        let e = encode_utf8(x);
        let rest = x.subrange(1, x.len() as int);
        lemma_encode_first(x);
        lemma_encode_scalar(x[0]);
        lemma_ascii_byte(x[0]);
        if rest.len() > 0 {
            lemma_ascii_byte(rest[0]);
            lemma_encode_scalar(rest[0]);
        }
        assert(newlines_continue(rest)) by {
            assert forall|j: int| 0 <= j < rest.len() - 1 && #[trigger] rest[j] == '\n' implies rest[j + 1]
                == ' ' by {
                assert(x[j + 1] == rest[j]);
            }
        }
        if (x[0] as u32) < 0x80 {
            let er = encode_utf8(rest);
            assert(e == seq![(x[0] as u32) as u8] + er);
            assert(e[0] == (x[0] as u32) as u8);
            assert(e.subrange(1, e.len() as int) == er);
            if x[0] == '\r' && x.len() == 1 {
                assert(er == Seq::<u8>::empty());
            } else if x[0] == '\r' && x[1] == '\n' {
                lemma_encode_first(rest);
                lemma_encode_scalar(rest[0]);
                let rr = rest.subrange(1, rest.len() as int);
                assert(er == seq![0x0Au8] + encode_utf8(rr));
                assert(e[1] == 0x0Au8);
                if x.len() == 2 {
                    assert(rr.len() == 0);
                    assert(encode_utf8(rr) == Seq::<u8>::empty());
                } else {
                    assert(x[2] == ' ');
                    lemma_encode_first(rr);
                    lemma_encode_scalar(rr[0]);
                    let r3 = rr.subrange(1, rr.len() as int);
                    assert(encode_utf8(rr) == seq![0x20u8] + encode_utf8(r3));
                    assert(e.subrange(3, e.len() as int) == encode_utf8(r3));
                    assert(x.subrange(3, x.len() as int) == r3);
                    assert(newlines_continue(r3)) by {
                        assert forall|j: int| 0 <= j < r3.len() - 1 && #[trigger] r3[j] == '\n' implies r3[j
                            + 1] == ' ' by {
                            assert(x[j + 3] == r3[j]);
                            assert(x[j + 4] == r3[j + 1]);
                        }
                    }
                    lemma_unfold_encode(r3);
                }
            } else if x[0] == '\n' {
                if x.len() == 1 {
                    assert(er == Seq::<u8>::empty());
                } else {
                    assert(x[1] == ' ');
                    lemma_encode_first(rest);
                    lemma_encode_scalar(rest[0]);
                    let rr = rest.subrange(1, rest.len() as int);
                    assert(er == seq![0x20u8] + encode_utf8(rr));
                    assert(e.subrange(2, e.len() as int) == encode_utf8(rr));
                    assert(x.subrange(2, x.len() as int) == rr);
                    assert(newlines_continue(rr)) by {
                        assert forall|j: int| 0 <= j < rr.len() - 1 && #[trigger] rr[j] == '\n' implies rr[j
                            + 1] == ' ' by {
                            assert(x[j + 2] == rr[j]);
                            assert(x[j + 3] == rr[j + 1]);
                        }
                    }
                    lemma_unfold_encode(rr);
                }
            } else {
                if x[0] == '\r' {
                    lemma_encode_first(rest);
                    lemma_encode_scalar(rest[0]);
                    assert(e[1] == encode_scalar(rest[0] as u32)[0]);
                    assert(e[1] != 0x0Au8);
                }
                lemma_unfold_encode(rest);
                assert(unfold_bytes(e) == seq![e[0]] + unfold_bytes(er));
                assert(unfold_chars(x) == seq![x[0]] + unfold_chars(rest));
                lemma_encode_first(unfold_chars(x));
                assert(unfold_chars(x).subrange(1, unfold_chars(x).len() as int) == unfold_chars(
                    rest,
                ));
            }
        } else {
            lemma_unfold_bytes_plain_prefix(encode_scalar(x[0] as u32), encode_utf8(rest));
            lemma_unfold_encode(rest);
            assert(unfold_chars(x) == seq![x[0]] + unfold_chars(rest));
            lemma_encode_first(unfold_chars(x));
            assert(unfold_chars(x).subrange(1, unfold_chars(x).len() as int) == unfold_chars(rest));
        }
    }
}


/// Number of UTF-8 bytes of a character.
pub open spec fn char_width(c: char) -> int {
    if (c as u32) < 0x80 {
        1
    } else if (c as u32) < 0x800 {
        2
    } else if (c as u32) < 0x10000 {
        3
    } else {
        4
    }
}

/// Number of UTF-8 bytes of a character.
pub fn utf8_width(c: char) -> (n: usize)
    ensures
        n == char_width(c),
{
    let u = c as u32;
    if u < 0x80 {
        1
    } else if u < 0x800 {
        2
    } else if u < 0x10000 {
        3
    } else {
        4
    }
}

/// Folding a logical line: before a character that would take the physical
/// line beyond 75 bytes, the line ending and a space are inserted; the line
/// ending also closes the text.
pub open spec fn fold_from(l: Seq<char>, width: int, eol: Seq<char>) -> Seq<char>
    decreases l.len(),
{
    if l.len() == 0 {
        eol
    } else {
        let w = char_width(l[0]);
        if width + w > 75 {
            eol + seq![' ', l[0]] + fold_from(l.subrange(1, l.len() as int), 1 + w, eol)
        } else {
            seq![l[0]] + fold_from(l.subrange(1, l.len() as int), width + w, eol)
        }
    }
}

pub open spec fn fold_chars(l: Seq<char>, eol: Seq<char>) -> Seq<char> {
    fold_from(l, 0, eol)
}

/// The line endings a content line can have: CRLF, LF, or none.
pub open spec fn is_eol(e: Seq<char>) -> bool {
    e == Seq::<char>::empty() || e == seq!['\n'] || e == seq!['\r', '\n']
}

/// In a folded line, every line feed but the final one is followed by a space.
pub proof fn lemma_fold_newlines_continue(l: Seq<char>, width: int, eol: Seq<char>)
    requires
        no_newline(l),
        is_eol(eol),
    ensures
        newlines_continue(fold_from(l, width, eol)),
        fold_from(l, width, eol).len() > 0 ==> eol.len() > 0 ==> fold_from(l, width, eol).last()
            == '\n',
    decreases l.len(),
{
    if l.len() > 0 {
        let rest = l.subrange(1, l.len() as int);
        let w = char_width(l[0]);
        assert(no_newline(rest)) by {
            assert forall|i: int| 0 <= i < rest.len() implies rest[i] != '\n' by {
                assert(rest[i] == l[i + 1]);
            }
        }
        if width + w > 75 {
            lemma_fold_newlines_continue(rest, 1 + w, eol);
            let f = fold_from(rest, 1 + w, eol);
            let a = eol + seq![' ', l[0]];
            let x = a + f;
            assert forall|j: int| 0 <= j < x.len() - 1 && #[trigger] x[j] == '\n' implies x[j + 1]
                == ' ' by {
                if j < eol.len() {
                    assert(j == eol.len() - 1);
                    assert(x[j + 1] == a[j + 1]);
                } else if j < a.len() {
                    assert(x[j] == a[j]);
                } else {
                    assert(x[j] == f[j - a.len()]);
                    assert(x[j + 1] == f[j + 1 - a.len()]);
                }
            }
            if eol.len() > 0 {
                if f.len() > 0 {
                    assert(x.last() == f.last());
                } else {
                    assert(false);
                }
            }
        } else {
            lemma_fold_newlines_continue(rest, width + w, eol);
            let f = fold_from(rest, width + w, eol);
            let x = seq![l[0]] + f;
            assert forall|j: int| 0 <= j < x.len() - 1 && #[trigger] x[j] == '\n' implies x[j + 1]
                == ' ' by {
                if j == 0 {
                    assert(x[0] == l[0]);
                } else {
                    assert(x[j] == f[j - 1]);
                    assert(x[j + 1] == f[j]);
                }
            }
            if eol.len() > 0 && f.len() > 0 {
                assert(x.last() == f.last());
            }
        }
    } else {
        if eol.len() > 0 {
            assert(eol.last() == '\n');
        }
    }
}

/// Unfolding a folded line gives back its logical text, when the line ends
/// with CRLF or LF and the text holds neither CR nor LF.
pub proof fn lemma_unfold_fold(l: Seq<char>, width: int, eol: Seq<char>)
    requires
        forall|i: int| 0 <= i < l.len() ==> #[trigger] l[i] != '\n' && l[i] != '\r',
        eol == seq!['\n'] || eol == seq!['\r', '\n'],
    ensures
        unfold_chars(fold_from(l, width, eol)) == l,
    decreases l.len(),
{
    if l.len() == 0 {
        assert(unfold_chars(eol) == Seq::<char>::empty());
    } else {
        let rest = l.subrange(1, l.len() as int);
        let w = char_width(l[0]);
        assert(forall|i: int| 0 <= i < rest.len() ==> rest[i] == l[i + 1]);
        assert(l == seq![l[0]] + rest);
        if width + w > 75 {
            lemma_unfold_fold(rest, 1 + w, eol);
            let f = fold_from(rest, 1 + w, eol);
            let x = eol + seq![' ', l[0]] + f;
            let tail = seq![l[0]] + f;
            assert(tail[0] == l[0]);
            assert(tail.subrange(1, tail.len() as int) == f);
            assert(unfold_chars(tail) == seq![l[0]] + unfold_chars(f));
            if eol == seq!['\n'] {
                assert(x.subrange(2, x.len() as int) == tail);
            } else {
                assert(x.subrange(3, x.len() as int) == tail);
            }
        } else {
            lemma_unfold_fold(rest, width + w, eol);
            let f = fold_from(rest, width + w, eol);
            let x = seq![l[0]] + f;
            assert(x.subrange(1, x.len() as int) == f);
        }
    }
}

/// Folds a logical line and encodes it.
fn fold(logical: &[char], eol: &[char]) -> (r: Vec<u8>)
    ensures
        r@ == encode_utf8(fold_chars(logical@, eol@)),
{
    let mut out: Vec<char> = Vec::new();
    let mut width: usize = 0;
    let mut i: usize = 0;
    let n = logical.len();
    assert(logical@.subrange(0, n as int) == logical@);
    while i < n
        invariant
            n == logical@.len(),
            i <= n,
            width <= 75,
            fold_chars(logical@, eol@) == out@ + fold_from(
                logical@.subrange(i as int, n as int),
                width as int,
                eol@,
            ),
        decreases n - i,
    {
        let c = logical[i];
        let w = utf8_width(c);
        let ghost rest = logical@.subrange(i as int, n as int);
        assert(rest[0] == c);
        assert(rest.subrange(1, rest.len() as int) == logical@.subrange(i + 1, n as int));
        if width + w > 75 {
            let mut k: usize = 0;
            let ghost before = out@;
            while k < eol.len()
                invariant
                    k <= eol@.len(),
                    out@ == before + eol@.take(k as int),
                decreases eol.len() - k,
            {
                out.push(eol[k]);
                assert(eol@.take(k + 1) == eol@.take(k as int).push(eol@[k as int]));
                k += 1;
            }
            assert(eol@.take(eol@.len() as int) == eol@);
            out.push(' ');
            out.push(c);
            assert(out@ == before + (eol@ + seq![' ', c]));
            width = 1 + w;
        } else {
            out.push(c);
            width = width + w;
        }
        i += 1;
    }
    assert(fold_from(logical@.subrange(n as int, n as int), width as int, eol@) == eol@);
    let mut k: usize = 0;
    let ghost before = out@;
    while k < eol.len()
        invariant
            k <= eol@.len(),
            out@ == before + eol@.take(k as int),
        decreases eol.len() - k,
    {
        out.push(eol[k]);
        assert(eol@.take(k + 1) == eol@.take(k as int).push(eol@[k as int]));
        k += 1;
    }
    assert(eol@.take(eol@.len() as int) == eol@);
    encode_chars(&out)
}


/// The texts of a sequence of strings.
pub open spec fn texts(v: Seq<String>) -> Seq<Seq<char>> {
    v.map_values(|s: String| s@)
}

/// The contents of a sequence of character vectors.
pub open spec fn char_seqs(v: Seq<Vec<char>>) -> Seq<Seq<char>> {
    v.map_values(|s: Vec<char>| s@)
}

/// Splits a content line's text into head, parameters and value.
fn split_head(t: &[char]) -> (r: (Vec<char>, Vec<Vec<char>>, Vec<char>))
    ensures
        (r.0@, char_seqs(r.1@), r.2@) == head_split(t@),
        no_newline(t@) ==> no_newline(r.0@) && no_newline(r.2@) && forall|k: int|
            0 <= k < r.1@.len() ==> no_newline(#[trigger] r.1@[k]@),
{
    let n = t.len();
    let mut segs: Vec<Vec<char>> = Vec::new();
    let mut start: usize = 0;
    let mut q = false;
    let mut i: usize = 0;
    assert(char_seqs(segs@) =~= Seq::<Seq<char>>::empty());
    while i < n
        invariant
            n == t@.len(),
            start <= i <= n,
            head_split(t@) == head_scan(t@, i as int, start as int, q, char_seqs(segs@)),
            no_newline(t@) ==> forall|k: int| 0 <= k < segs@.len() ==> no_newline(#[trigger] segs@[k]@),
        decreases n - i,
    {
        let c = t[i];
        if c == '"' {
            q = !q;
        } else if c == ';' && !q {
            let seg = copy_range(t, start, i);
            let ghost old = char_seqs(segs@);
            segs.push(seg);
            assert(char_seqs(segs@) =~= old.push(t@.subrange(start as int, i as int)));
            start = i + 1;
        } else if c == ':' && !q {
            let seg = copy_range(t, start, i);
            let ghost old = char_seqs(segs@);
            segs.push(seg);
            assert(char_seqs(segs@) =~= old.push(t@.subrange(start as int, i as int)));
            let value = copy_range(t, i + 1, n);
            let ghost full = char_seqs(segs@);
            let head = segs.remove(0);
            assert(char_seqs(segs@) =~= full.drop_first());
            assert(head@ == full[0]);
            return (head, segs, value);
        }
        i += 1;
    }
    let seg = copy_range(t, start, n);
    let ghost old = char_seqs(segs@);
    segs.push(seg);
    assert(char_seqs(segs@) =~= old.push(t@.subrange(start as int, n as int)));
    let ghost full = char_seqs(segs@);
    let head = segs.remove(0);
    assert(char_seqs(segs@) =~= full.drop_first());
    assert(head@ == full[0]);
    let value: Vec<char> = Vec::new();
    assert(value@ =~= Seq::<char>::empty());
    (head, segs, value)
}


/// Splits a head into its group and name at its first `.`.
fn group_and_name(h: Vec<char>) -> (r: (Option<Vec<char>>, Vec<char>))
    ensures
        (match r.0 {
            Some(g) => Some(g@),
            None => None,
        }, r.1@) == split_group(h@),
        no_newline(h@) ==> no_newline(r.1@) && (r.0 matches Some(g) ==> no_newline(g@)),
{
    let n = h.len();
    let mut i: usize = 0;
    while i < n
        invariant
            n == h@.len(),
            i <= n,
            forall|j: int| 0 <= j < i ==> h@[j] != '.',
        decreases n - i,
    {
        if h[i] == '.' {
            assert(first_at(h@, '.', i as int));
            proof {
                let k = choose|k: int| first_at(h@, '.', k);
                assert(k == i) by {
                    if k < i {
                        assert(h@[k] != '.');
                    } else if k > i {
                        assert(h@[i as int] != '.');
                    }
                }
            }
            let group = copy_range(&h, 0, i);
            let name = copy_range(&h, i + 1, n);
            assert(group@ == h@.take(i as int));
            assert(name@ == h@.skip(i + 1));
            return (Some(group), name);
        }
        i += 1;
    }
    assert(!exists|k: int| first_at(h@, '.', k));
    (None, h)
}

/// The text of an optional string.
pub open spec fn opt_text(o: Option<String>) -> Option<Seq<char>> {
    match o {
        Some(s) => Some(s@),
        None => None,
    }
}

impl LineView {
    /// A content line as parsing yields it: its parts are what its raw bytes
    /// read as, and none of them holds a line feed.
    pub open spec fn wf(self) -> bool {
        &&& parse_line(self.raw) == Some(self)
        &&& self.group matches Some(g) ==> no_newline(g)
        &&& no_newline(self.name)
        &&& no_newline(self.value)
        &&& forall|k: int| 0 <= k < self.params.len() ==> no_newline(#[trigger] self.params[k])
    }
}

/// One logical vCard line (`group.NAME;params:value`) with the bytes it was
/// read from.
#[derive(Debug, PartialEq, Eq)]
pub struct ContentLine {
    raw: Vec<u8>,
    group: Option<String>,
    name: String,
    params: Vec<String>,
    value: String,
}

impl Clone for ContentLine {
    fn clone(&self) -> (r: Self)
        ensures
            r@ == self@,
    {
        let group = match &self.group {
            Some(g) => Some(g.clone()),
            None => None,
        };
        let raw = crate::text::copy_range(&self.raw, 0, self.raw.len());
        assert(raw@ =~= self.raw@);
        assert(opt_text(group) == opt_text(self.group));
        let r = ContentLine {
            raw,
            group,
            name: self.name.clone(),
            params: super::copy_strings(&self.params),
            value: self.value.clone(),
        };
        assert(r@.params == self@.params);
        r
    }
}

impl View for ContentLine {
    type V = LineView;

    closed spec fn view(&self) -> LineView {
        LineView {
            raw: self.raw@,
            group: opt_text(self.group),
            name: self.name@,
            params: texts(self.params@),
            value: self.value@,
        }
    }
}

/// Strings holding the given texts.
fn strings_of(v: &Vec<Vec<char>>) -> (r: Vec<String>)
    ensures
        texts(r@) == char_seqs(v@),
{
    let mut r: Vec<String> = Vec::new();
    let mut i: usize = 0;
    while i < v.len()
        invariant
            i <= v@.len(),
            texts(r@) == char_seqs(v@).take(i as int),
        decreases v.len() - i,
    {
        let s = string_of(&v[i]);
        let ghost old = texts(r@);
        r.push(s);
        assert(texts(r@) =~= old.push(s@));
        assert(char_seqs(v@).take(i + 1) =~= char_seqs(v@).take(i as int).push(v@[i as int]@));
        i += 1;
    }
    assert(char_seqs(v@).take(v@.len() as int) =~= char_seqs(v@));
    r
}

/// The line ending of a raw line: CRLF, LF or none.
pub open spec fn eol_of(raw: Seq<u8>) -> Seq<char> {
    if raw.len() >= 2 && raw[raw.len() - 2] == 0x0Du8 && raw.last() == 0x0Au8 {
        seq!['\r', '\n']
    } else if raw.len() >= 1 && raw.last() == 0x0Au8 {
        seq!['\n']
    } else {
        Seq::<char>::empty()
    }
}

/// A byte that `trim_ascii` removes.
pub open spec fn is_ascii_space(b: u8) -> bool {
    b == 0x20u8 || b == 0x09u8 || b == 0x0Au8 || b == 0x0Cu8 || b == 0x0Du8
}

/// The logical text of a content line: `group.` (when grouped), the name,
/// `;param` for each parameter, `:` and the value.
pub open spec fn logical_text(
    group: Option<Seq<char>>,
    name: Seq<char>,
    params: Seq<Seq<char>>,
    value: Seq<char>,
) -> Seq<char> {
    let g = match group {
        Some(g) => g + seq!['.'],
        None => Seq::<char>::empty(),
    };
    g + name + params_text(params) + seq![':'] + value
}

/// Each parameter preceded by `;`.
pub open spec fn params_text(params: Seq<Seq<char>>) -> Seq<char>
    decreases params.len(),
{
    if params.len() == 0 {
        Seq::<char>::empty()
    } else {
        params_text(params.drop_last()) + seq![';'] + params.last()
    }
}

/// The content line built from a logical text and a line ending.
pub open spec fn built_line(logical: Seq<char>, eol: Seq<char>) -> LineView {
    parse_line(encode_utf8(fold_chars(logical, eol)))->0
}

/// A line built from a logical text without line feeds reads as the
/// unfolded folding of that text.
pub proof fn lemma_built_line(logical: Seq<char>, eol: Seq<char>)
    requires
        no_newline(logical),
        is_eol(eol),
    ensures
        parse_line(encode_utf8(fold_chars(logical, eol))) is Some,
        unfold_bytes(encode_utf8(fold_chars(logical, eol))) == encode_utf8(
            unfold_chars(fold_chars(logical, eol)),
        ),
        no_newline(unfold_chars(fold_chars(logical, eol))),
{
    let f = fold_chars(logical, eol);
    lemma_fold_newlines_continue(logical, 0, eol);
    lemma_unfold_encode(f);
    vstd::utf8::encode_utf8_valid_utf8(unfold_chars(f));
    lemma_unfold_chars_no_newline(f);
}

/// Encoding two texts one after the other encodes each in turn.
pub proof fn lemma_encode_concat(a: Seq<char>, b: Seq<char>)
    ensures
        encode_utf8(a + b) == encode_utf8(a) + encode_utf8(b),
    decreases a.len(),
{
    if a.len() == 0 {
        assert(a + b =~= b);
        assert(encode_utf8(a) + encode_utf8(b) =~= encode_utf8(b));
    } else {
        assert((a + b).drop_first() =~= a.drop_first() + b);
        assert((a + b)[0] == a[0]);
        lemma_encode_concat(a.drop_first(), b);
        assert(encode_utf8(a + b) =~= encode_utf8(a) + encode_utf8(b));
    }
}

/// A line built from a text without line breaks reads as that text and
/// ends in a line break.
pub proof fn lemma_built_text(t: Seq<char>, eol: Seq<char>)
    requires
        forall|i: int| 0 <= i < t.len() ==> #[trigger] t[i] != '\n' && t[i] != '\r',
        eol == seq!['\n'] || eol == seq!['\r', '\n'],
    ensures
        line_text(built_line(t, eol)) == t,
        eol_of(built_line(t, eol).raw).len() > 0,
{
    let f = fold_chars(t, eol);
    assert(no_newline(t));
    lemma_built_line(t, eol);
    lemma_unfold_fold(t, 0, eol);
    vstd::utf8::encode_utf8_decode_utf8(t);
    lemma_fold_newlines_continue(t, 0, eol);
    assert(f.len() > 0);
    assert(f.last() == '\n');
    lemma_encode_concat(f.drop_last(), seq![f.last()]);
    assert(f.drop_last() + seq![f.last()] =~= f);
    assert(vstd::utf8::is_ascii_chars(seq!['\n']));
    vstd::utf8::is_ascii_chars_encode_utf8(seq!['\n']);
    let r = encode_utf8(f);
    assert(r.last() == 0x0Au8);
}

/// Whether the head scan stops at `p` depends only on the text up to `p`.
proof fn lemma_stops_prefix(t1: Seq<char>, t2: Seq<char>, i: int, q: bool, p: int)
    requires
        stops_at(t1, i, q, p),
        p < t2.len(),
        t1.take(p + 1) == t2.take(p + 1),
    ensures
        stops_at(t2, i, q, p),
    decreases t1.len() - i,
{
    lemma_stops_at_colon(t1, i, q, p);
    assert(t1[i] == t1.take(p + 1)[i] && t2[i] == t2.take(p + 1)[i]);
    if t1[i] == '"' {
        lemma_stops_prefix(t1, t2, i + 1, !q, p);
    } else if t1[i] == ':' && !q {
    } else {
        lemma_stops_prefix(t1, t2, i + 1, q, p);
    }
}

impl ContentLine {
    /// Reads one raw content line: `None` when its unfolded bytes are not
    /// valid UTF-8.
    fn from_raw(raw: Vec<u8>) -> (r: Option<Self>)
        ensures
            r is None <==> parse_line(raw@) is None,
            r matches Some(l) ==> Some(l@) == parse_line(raw@) && l@.wf(),
    {
        let u = unfold(raw.as_slice());
        let ghost ub = u@;
        proof {
            lemma_unfold_bytes_no_lf(raw@);
        }
        match decode_utf8_bytes(u) {
            None => None,
            Some(text) => {
                proof {
                    lemma_decode_no_newline(ub);
                }
                let t = chars_of(text.as_str());
                let (head, params, value) = split_head(&t);
                let (group, name) = group_and_name(head);
                let group = match group {
                    Some(g) => Some(string_of(&g)),
                    None => None,
                };
                let line = ContentLine {
                    raw,
                    group,
                    name: string_of(&name),
                    params: strings_of(&params),
                    value: string_of(&value),
                };
                assert(line@.params == char_seqs(params@));
                Some(line)
            },
        }
    }

    /// Builds a content line from its logical text.
    fn build(logical: &[char], eol: &[char]) -> (l: Self)
        requires
            no_newline(logical@),
            is_eol(eol@),
        ensures
            l@ == built_line(logical@, eol@),
            l@.wf(),
    {
        proof {
            lemma_built_line(logical@, eol@);
        }
        match Self::from_raw(fold(logical, eol)) {
            Some(l) => l,
            None => {
                proof {
                    assert(false);
                }
                ContentLine {
                    raw: Vec::new(),
                    group: None,
                    name: String::new(),
                    params: Vec::new(),
                    value: String::new(),
                }
            },
        }
    }

    /// The line ending of this line's raw bytes.
    pub(crate) fn eol(&self) -> (e: &'static str)
        ensures
            e@ == eol_of(self@.raw),
    {
        proof {
            reveal_strlit("\r\n");
            reveal_strlit("\n");
            reveal_strlit("");
        }
        let n = self.raw.len();
        if n >= 2 && self.raw[n - 2] == 0x0Du8 && self.raw[n - 1] == 0x0Au8 {
            "\r\n"
        } else if n >= 1 && self.raw[n - 1] == 0x0Au8 {
            "\n"
        } else {
            ""
        }
    }

    /// The bytes this line was read from.
    pub fn raw(&self) -> (r: &[u8])
        ensures
            r@ == self@.raw,
    {
        self.raw.as_slice()
    }

    /// The group, as in `item1.TEL`.
    pub fn group(&self) -> (g: Option<&str>)
        ensures
            match g {
                Some(g) => self@.group == Some(g@),
                None => self@.group is None,
            },
    {
        match &self.group {
            Some(g) => Some(g.as_str()),
            None => None,
        }
    }

    /// The property name.
    pub fn name(&self) -> (n: &str)
        ensures
            n@ == self@.name,
    {
        self.name.as_str()
    }

    /// The parameters, each as written.
    pub fn params(&self) -> (p: &[String])
        ensures
            texts(p@) == self@.params,
    {
        self.params.as_slice()
    }

    /// The value, as written (escaped).
    pub fn value(&self) -> (v: &str)
        ensures
            v@ == self@.value,
    {
        self.value.as_str()
    }

    /// Whether this line is `name:value` without group or parameters,
    /// ignoring ASCII case.
    pub(crate) fn is(&self, name: &str, value: &str) -> (r: bool)
        ensures
            r == (self@.group is None && self@.params.len() == 0 && eq_ic(self@.name, name@)
                && eq_ic(self@.value, value@)),
    {
        if self.group.is_some() || self.params.len() != 0 {
            return false;
        }
        let n = chars_of(self.name.as_str());
        let v = chars_of(self.value.as_str());
        eq_ignore_case(&n, &chars_of(name)) && eq_ignore_case(&v, &chars_of(value))
    }

    /// Whether this line holds only ASCII whitespace.
    pub(crate) fn is_blank(&self) -> (r: bool)
        ensures
            r == forall|i: int| 0 <= i < self@.raw.len() ==> is_ascii_space(#[trigger] self@.raw[i]),
    {
        let mut i: usize = 0;
        while i < self.raw.len()
            invariant
                i <= self.raw@.len(),
                forall|j: int| 0 <= j < i ==> is_ascii_space(#[trigger] self.raw@[j]),
            decreases self.raw.len() - i,
        {
            let b = self.raw[i];
            if !(b == 0x20u8 || b == 0x09u8 || b == 0x0Au8 || b == 0x0Cu8 || b == 0x0Du8) {
                assert(!is_ascii_space(self@.raw[i as int]));
                return false;
            }
            i += 1;
        }
        true
    }
}


/// Parameters without line feeds give a parameter text without line feeds.
proof fn lemma_params_text_no_newline(params: Seq<Seq<char>>)
    requires
        forall|k: int| 0 <= k < params.len() ==> no_newline(#[trigger] params[k]),
    ensures
        no_newline(params_text(params)),
    decreases params.len(),
{
    if params.len() > 0 {
        lemma_params_text_no_newline(params.drop_last());
        lemma_no_newline_concat(params_text(params.drop_last()), seq![';']);
        lemma_no_newline_concat(params_text(params.drop_last()) + seq![';'], params.last());
    }
}

/// The logical text of parts without line feeds holds no line feed.
proof fn lemma_logical_text_no_newline(
    group: Option<Seq<char>>,
    name: Seq<char>,
    params: Seq<Seq<char>>,
    value: Seq<char>,
)
    requires
        group matches Some(g) ==> no_newline(g),
        no_newline(name),
        forall|k: int| 0 <= k < params.len() ==> no_newline(#[trigger] params[k]),
        no_newline(value),
    ensures
        no_newline(logical_text(group, name, params, value)),
{
    let g = match group {
        Some(g) => g + seq!['.'],
        None => Seq::<char>::empty(),
    };
    if let Some(x) = group {
        lemma_no_newline_concat(x, seq!['.']);
    }
    lemma_params_text_no_newline(params);
    lemma_no_newline_concat(g, name);
    lemma_no_newline_concat(g + name, params_text(params));
    lemma_no_newline_concat(g + name + params_text(params), seq![':']);
    lemma_no_newline_concat(g + name + params_text(params) + seq![':'], value);
}

impl ContentLine {
    /// A new line `group.name;params:value` ending with `eol`, folded at 75
    /// bytes.
    pub(crate) fn new(
        group: Option<&str>,
        name: &str,
        params: &[String],
        value: &str,
        eol: &str,
    ) -> (l: Self)
        requires
            group matches Some(g) ==> no_newline(g@),
            no_newline(name@),
            forall|k: int| 0 <= k < params@.len() ==> no_newline(#[trigger] params@[k]@),
            no_newline(value@),
            is_eol(eol@),
        ensures
            l@ == built_line(
                logical_text(
                    match group {
                        Some(g) => Some(g@),
                        None => None,
                    },
                    name@,
                    texts(params@),
                    value@,
                ),
                eol@,
            ),
            l@.wf(),
    {
        let ghost g = match group {
            Some(g) => Some(g@),
            None => None,
        };
        let mut logical: Vec<char> = Vec::new();
        match group {
            Some(gr) => {
                push_all(&mut logical, &chars_of(gr));
                logical.push('.');
            },
            None => {},
        }
        push_all(&mut logical, &chars_of(name));
        let ghost prefix = logical@;
        let mut i: usize = 0;
        while i < params.len()
            invariant
                i <= params@.len(),
                logical@ == prefix + params_text(texts(params@).take(i as int)),
            decreases params.len() - i,
        {
            logical.push(';');
            push_all(&mut logical, &chars_of(params[i].as_str()));
            assert(texts(params@).take(i + 1).drop_last() == texts(params@).take(i as int));
            i += 1;
        }
        assert(texts(params@).take(params@.len() as int) == texts(params@));
        logical.push(':');
        push_all(&mut logical, &chars_of(value));
        assert(logical@ == logical_text(g, name@, texts(params@), value@));
        proof {
            lemma_logical_text_no_newline(g, name@, texts(params@), value@);
        }
        Self::build(&logical, &chars_of(eol))
    }

    /// This line with another value: same group, name, parameters and line
    /// ending.
    pub(crate) fn with_value(&self, value: &str) -> (l: Self)
        requires
            self@.wf(),
            no_newline(value@),
        ensures
            l@ == built_line(
                logical_text(self@.group, self@.name, self@.params, value@),
                eol_of(self@.raw),
            ),
            l@.wf(),
    {
        assert forall|k: int| 0 <= k < self.params@.len() implies no_newline(
            #[trigger] self.params@[k]@,
        ) by {
            assert(self@.params[k] == self.params@[k]@);
        }
        assert(texts(self.params@) == self@.params);
        self.with(self.params.as_slice(), value)
    }

    /// This line with other parameters and value: same group, name and line
    /// ending.
    pub(crate) fn with(&self, params: &[String], value: &str) -> (l: Self)
        requires
            self@.wf(),
            forall|k: int| 0 <= k < params@.len() ==> no_newline(#[trigger] params@[k]@),
            no_newline(value@),
        ensures
            l@ == built_line(
                logical_text(self@.group, self@.name, texts(params@), value@),
                eol_of(self@.raw),
            ),
            l@.wf(),
    {
        let group = match &self.group {
            Some(g) => Some(g.as_str()),
            None => None,
        };
        Self::new(group, self.name.as_str(), params, value, self.eol())
    }
}

/// The content lines that bytes read as: `None` when a line is not valid
/// UTF-8 after unfolding.
pub open spec fn parse_lines(b: Seq<u8>) -> Option<Seq<LineView>> {
    let raws = raw_split(b);
    if forall|k: int| 0 <= k < raws.len() ==> (#[trigger] parse_line(raws[k])) is Some {
        Some(Seq::new(raws.len(), |k: int| parse_line(raws[k])->0))
    } else {
        None
    }
}

/// The bytes of a sequence of lines, concatenated.
pub open spec fn lines_bytes(ls: Seq<LineView>) -> Seq<u8> {
    ls.map_values(|l: LineView| l.raw).flatten()
}

/// Reading bytes as content lines and writing the lines back gives the
/// same bytes.
pub proof fn lemma_lines_roundtrip(b: Seq<u8>)
    requires
        parse_lines(b) is Some,
    ensures
        lines_bytes(parse_lines(b)->0) == b,
        forall|k: int| 0 <= k < (parse_lines(b)->0).len() ==> (#[trigger] (parse_lines(b)->0)[k]).raw.len() > 0,
{
    lemma_raw_split_flatten(b);
    let ls = parse_lines(b)->0;
    assert(ls.map_values(|l: LineView| l.raw) =~= raw_split(b));
}

/// Splits bytes into content lines.
pub(crate) fn split(bytes: &[u8]) -> (r: Option<Vec<ContentLine>>)
    ensures
        match r {
            Some(v) => parse_lines(bytes@) == Some(v@.map_values(|l: ContentLine| l@)) && forall|k: int|
                0 <= k < v@.len() ==> (#[trigger] v@[k])@.wf(),
            None => parse_lines(bytes@) is None,
        },
{
    let raws = split_raw(bytes);
    let ghost rs = raw_split(bytes@);
    let mut out: Vec<ContentLine> = Vec::new();
    let mut i: usize = 0;
    let n = raws.len();
    assert(raws@.map_values(|v: Vec<u8>| v@) == rs);
    while i < n
        invariant
            i <= n,
            n == rs.len(),
            rs == raw_split(bytes@),
            raws@.map_values(|v: Vec<u8>| v@) == rs,
            out@.len() == i,
            forall|k: int| 0 <= k < i ==> Some((#[trigger] out@[k])@) == parse_line(rs[k]),
            forall|k: int| 0 <= k < i ==> (#[trigger] out@[k])@.wf(),
        decreases n - i,
    {
        let raw = copy_range(raws[i].as_slice(), 0, raws[i].len());
        assert(raw@ == rs[i as int]) by {
            assert(raws@[i as int]@ == rs[i as int]);
            assert(raws@[i as int]@.subrange(0, raws@[i as int]@.len() as int) == raws@[i as int]@);
        }
        match ContentLine::from_raw(raw) {
            Some(l) => out.push(l),
            None => {
                assert(parse_line(rs[i as int]) is None);
                assert(!(forall|k: int| 0 <= k < rs.len() ==> (#[trigger] parse_line(rs[k])) is Some));
                assert(parse_lines(bytes@) is None);
                return None;
            },
        }
        i += 1;
    }
    assert forall|k: int| 0 <= k < rs.len() implies (#[trigger] parse_line(rs[k])) is Some by {
        assert(Some(out@[k]@) == parse_line(rs[k]));
    }
    assert(out@.map_values(|l: ContentLine| l@) =~= Seq::new(rs.len(), |k: int| parse_line(rs[k])->0));
    Some(out)
}


/// The escaped form of one character: backslash, comma and semicolon get a
/// backslash before them, a line feed becomes `\n`.
pub open spec fn escape_char(c: char) -> Seq<char> {
    if c == '\\' || c == ',' || c == ';' {
        seq!['\\', c]
    } else if c == '\n' {
        seq!['\\', 'n']
    } else {
        seq![c]
    }
}

/// The escaped form of a text, character by character.
pub open spec fn escape_text(s: Seq<char>) -> Seq<char>
    decreases s.len(),
{
    if s.len() == 0 {
        Seq::<char>::empty()
    } else {
        escape_char(s[0]) + escape_text(s.subrange(1, s.len() as int))
    }
}

/// The unescaped form of a text: a backslash followed by `n` or `N` is a
/// line feed, followed by any other character is that character, and a
/// final lone backslash stays.
pub open spec fn unescape_text(s: Seq<char>) -> Seq<char>
    decreases s.len(),
{
    if s.len() == 0 {
        Seq::<char>::empty()
    } else if s[0] != '\\' {
        seq![s[0]] + unescape_text(s.subrange(1, s.len() as int))
    } else if s.len() == 1 {
        seq!['\\']
    } else if s[1] == 'n' || s[1] == 'N' {
        seq!['\n'] + unescape_text(s.subrange(2, s.len() as int))
    } else {
        seq![s[1]] + unescape_text(s.subrange(2, s.len() as int))
    }
}

/// Unescaping an escaped text gives the text back.
pub proof fn lemma_unescape_escape(s: Seq<char>)
    ensures
        unescape_text(escape_text(s)) == s,
    decreases s.len(),
{
    if s.len() > 0 {
        let rest = s.subrange(1, s.len() as int);
        lemma_unescape_escape(rest);
        let e = escape_text(s);
        let er = escape_text(rest);
        let c = s[0];
        assert(e == escape_char(c) + er);
        if c == '\\' || c == ',' || c == ';' || c == '\n' {
            assert(e.subrange(2, e.len() as int) == er);
        } else {
            assert(e.subrange(1, e.len() as int) == er);
        }
        assert(s == seq![c] + rest);
    }
}

/// An escaped text holds no line feed.
pub proof fn lemma_escape_no_newline(s: Seq<char>)
    ensures
        no_newline(escape_text(s)),
    decreases s.len(),
{
    if s.len() > 0 {
        let rest = s.subrange(1, s.len() as int);
        lemma_escape_no_newline(rest);
        lemma_no_newline_concat(escape_char(s[0]), escape_text(rest));
    }
}

/// Escapes a text for a property value.
#[verifier::spinoff_prover]
pub(crate) fn escape(value: &[char]) -> (r: Vec<char>)
    ensures
        r@ == escape_text(value@),
        no_newline(r@),
{
    let mut out: Vec<char> = Vec::new();
    let n = value.len();
    let mut i: usize = 0;
    assert(value@.subrange(0, n as int) == value@);
    while i < n
        invariant
            n == value@.len(),
            i <= n,
            escape_text(value@) == out@ + escape_text(value@.subrange(i as int, n as int)),
        decreases n - i,
    {
        let c = value[i];
        let ghost rest = value@.subrange(i as int, n as int);
        assert(rest.subrange(1, rest.len() as int) == value@.subrange(i + 1, n as int));
        if c == '\\' || c == ',' || c == ';' {
            out.push('\\');
            out.push(c);
        } else if c == '\n' {
            out.push('\\');
            out.push('n');
        } else {
            out.push(c);
        }
        assert(escape_text(rest) == escape_char(c) + escape_text(rest.subrange(1, rest.len() as int)));
        i += 1;
    }
    assert(escape_text(value@.subrange(n as int, n as int)) == Seq::<char>::empty());
    assert(out@ + Seq::<char>::empty() == out@);
    proof {
        lemma_escape_no_newline(value@);
    }
    out
}

/// Unescapes a property value.
pub(crate) fn unescape(value: &[char]) -> (r: Vec<char>)
    ensures
        r@ == unescape_text(value@),
{
    let mut out: Vec<char> = Vec::new();
    let n = value.len();
    let mut i: usize = 0;
    assert(value@.subrange(0, n as int) == value@);
    while i < n
        invariant
            n == value@.len(),
            i <= n,
            unescape_text(value@) == out@ + unescape_text(value@.subrange(i as int, n as int)),
        decreases n - i,
    {
        let c = value[i];
        let ghost rest = value@.subrange(i as int, n as int);
        if c != '\\' {
            assert(rest.subrange(1, rest.len() as int) == value@.subrange(i + 1, n as int));
            out.push(c);
            i += 1;
        } else if i + 1 == n {
            out.push('\\');
            assert(unescape_text(rest) == seq!['\\']);
            i += 1;
            assert(unescape_text(value@.subrange(i as int, n as int)) == Seq::<char>::empty());
        } else {
            let d = value[i + 1];
            assert(rest.subrange(2, rest.len() as int) == value@.subrange(i + 2, n as int));
            if d == 'n' || d == 'N' {
                out.push('\n');
            } else {
                out.push(d);
            }
            i += 2;
        }
    }
    assert(unescape_text(value@.subrange(n as int, n as int)) == Seq::<char>::empty());
    assert(out@ + Seq::<char>::empty() == out@);
    out
}

/// Splitting a value at separators that no backslash escapes.
pub open spec fn split_scan(
    s: Seq<char>,
    sep: char,
    i: int,
    start: int,
    escaped: bool,
    parts: Seq<Seq<char>>,
) -> Seq<Seq<char>>
    decreases s.len() - i,
{
    if i >= s.len() || i < 0 {
        parts.push(s.subrange(start, s.len() as int))
    } else if escaped {
        split_scan(s, sep, i + 1, start, false, parts)
    } else if s[i] == '\\' {
        split_scan(s, sep, i + 1, start, true, parts)
    } else if s[i] == sep {
        split_scan(s, sep, i + 1, i + 1, false, parts.push(s.subrange(start, i)))
    } else {
        split_scan(s, sep, i + 1, start, false, parts)
    }
}

/// The components of a value separated by unescaped `sep`.
pub open spec fn split_unescaped_spec(s: Seq<char>, sep: char) -> Seq<Seq<char>> {
    split_scan(s, sep, 0, 0, false, Seq::empty())
}

/// Splits a value at separators that no backslash escapes; the parts stay
/// escaped.
pub(crate) fn split_unescaped(value: &[char], sep: char) -> (r: Vec<Vec<char>>)
    ensures
        char_seqs(r@) == split_unescaped_spec(value@, sep),
        r@.len() > 0,
        no_newline(value@) ==> forall|k: int| 0 <= k < r@.len() ==> no_newline(#[trigger] r@[k]@),
{
    let n = value.len();
    let mut parts: Vec<Vec<char>> = Vec::new();
    let mut start: usize = 0;
    let mut escaped = false;
    let mut i: usize = 0;
    assert(char_seqs(parts@) =~= Seq::<Seq<char>>::empty());
    while i < n
        invariant
            n == value@.len(),
            start <= i <= n,
            split_unescaped_spec(value@, sep) == split_scan(value@, sep, i as int, start as int, escaped, char_seqs(parts@)),
            no_newline(value@) ==> forall|k: int| 0 <= k < parts@.len() ==> no_newline(#[trigger] parts@[k]@),
        decreases n - i,
    {
        let c = value[i];
        if escaped {
            escaped = false;
        } else if c == '\\' {
            escaped = true;
        } else if c == sep {
            let part = copy_range(value, start, i);
            let ghost old = char_seqs(parts@);
            parts.push(part);
            assert(char_seqs(parts@) =~= old.push(value@.subrange(start as int, i as int)));
            start = i + 1;
        }
        i += 1;
    }
    let part = copy_range(value, start, n);
    let ghost old = char_seqs(parts@);
    parts.push(part);
    assert(char_seqs(parts@) =~= old.push(value@.subrange(start as int, n as int)));
    parts
}


/// A raw line's line ending is one a content line can have.
pub proof fn is_eol_of(raw: Seq<u8>)
    ensures
        is_eol(eol_of(raw)),
{
}


/// The position of the first `c` in `s`.
pub fn find_char(s: &[char], c: char) -> (r: Option<usize>)
    ensures
        match r {
            Some(i) => first_at(s@, c, i as int),
            None => forall|j: int| 0 <= j < s@.len() ==> s@[j] != c,
        },
{
    let mut i: usize = 0;
    while i < s.len()
        invariant
            i <= s@.len(),
            forall|j: int| 0 <= j < i ==> s@[j] != c,
        decreases s.len() - i,
    {
        if s[i] == c {
            return Some(i);
        }
        i += 1;
    }
    None
}

/// There is one first position of a character.
pub proof fn lemma_first_at_unique(s: Seq<char>, c: char, i: int, k: int)
    requires
        first_at(s, c, i),
        first_at(s, c, k),
    ensures
        i == k,
{
    if i < k {
        assert(s[i] != c);
    } else if k < i {
        assert(s[k] != c);
    }
}

/// The text of a content line: its bytes unfolded and decoded.
pub open spec fn line_text(l: LineView) -> Seq<char> {
    decode_utf8(unfold_bytes(l.raw))
}

/// Whether the scan of a line's head, from `i` in quote state `q`, stops at
/// `p`: the first colon outside double quotes.
pub open spec fn stops_at(t: Seq<char>, i: int, q: bool, p: int) -> bool
    decreases t.len() - i,
{
    if i < 0 || i >= t.len() {
        false
    } else if t[i] == '"' {
        stops_at(t, i + 1, !q, p)
    } else if t[i] == ':' && !q {
        i == p
    } else {
        stops_at(t, i + 1, q, p)
    }
}

/// Whether a line's text has a colon outside double quotes, so that its
/// value is what follows the first such colon.
pub open spec fn separated(t: Seq<char>) -> bool {
    exists|p: int| stops_at(t, 0, false, p)
}

/// A group and a name as the head of a line: `group.name`, or the name.
pub open spec fn head_text(group: Option<Seq<char>>, name: Seq<char>) -> Seq<char> {
    match group {
        Some(g) => g + seq!['.'] + name,
        None => name,
    }
}

/// Segments joined with `;`, with a `;` after the last when there is any.
pub open spec fn joined_open(segs: Seq<Seq<char>>) -> Seq<char> {
    if segs.len() == 0 {
        Seq::empty()
    } else {
        segs[0] + params_text(segs.drop_first()) + seq![';']
    }
}

proof fn lemma_stops_at_colon(t: Seq<char>, i: int, q: bool, p: int)
    requires
        stops_at(t, i, q, p),
    ensures
        0 <= i <= p < t.len(),
        t[p] == ':',
    decreases t.len() - i,
{
    if 0 <= i < t.len() {
        if t[i] == '"' {
            lemma_stops_at_colon(t, i + 1, !q, p);
        } else if t[i] == ':' && !q {
        } else {
            lemma_stops_at_colon(t, i + 1, q, p);
        }
    }
}

proof fn lemma_params_text_push(ps: Seq<Seq<char>>, x: Seq<char>)
    ensures
        params_text(ps.push(x)) == params_text(ps) + seq![';'] + x,
{
    assert(ps.push(x).drop_last() =~= ps);
}

/// The scan of a head stops where its text says, whatever follows the
/// colon: a text that agrees up to that colon scans to the same head and
/// parameters, and the value is what follows the colon.
proof fn lemma_scan_prefix(t1: Seq<char>, t2: Seq<char>, p: int, i: int, st: int, q: bool, segs: Seq<Seq<char>>)
    requires
        0 <= st <= i <= p,
        p < t1.len(),
        p < t2.len(),
        t1.take(p + 1) == t2.take(p + 1),
        stops_at(t1, i, q, p),
        joined_open(segs) + t1.subrange(st, i) == t1.take(i),
    ensures
        head_scan(t2, i, st, q, segs) == (
            head_scan(t1, i, st, q, segs).0,
            head_scan(t1, i, st, q, segs).1,
            t2.subrange(p + 1, t2.len() as int),
        ),
        head_scan(t1, i, st, q, segs).2 == t1.subrange(p + 1, t1.len() as int),
        head_scan(t1, i, st, q, segs).0 + params_text(head_scan(t1, i, st, q, segs).1) == t1.take(p),
    decreases p - i,
{
    lemma_stops_at_colon(t1, i, q, p);
    if t1[i] == '"' {
        lemma_stops_at_colon(t1, i + 1, !q, p);
    } else if !(t1[i] == ':' && !q) {
        lemma_stops_at_colon(t1, i + 1, q, p);
    }
    assert(t1[i] == t1.take(p + 1)[i]);
    assert(t2[i] == t2.take(p + 1)[i]);
    assert(t1.subrange(st, i) =~= t2.subrange(st, i)) by {
        assert forall|k: int| st <= k < i implies t1[k] == t2[k] by {
            assert(t1[k] == t1.take(p + 1)[k]);
            assert(t2[k] == t2.take(p + 1)[k]);
        }
    }
    if t1[i] == '"' {
        assert(t1.subrange(st, i + 1) =~= t1.subrange(st, i).push(t1[i]));
        assert(t1.take(i + 1) =~= t1.take(i).push(t1[i]));
        lemma_scan_prefix(t1, t2, p, i + 1, st, !q, segs);
    } else if t1[i] == ';' && !q {
        let x = t1.subrange(st, i);
        let segs2 = segs.push(x);
        if segs.len() > 0 {
            assert(segs2.drop_first() =~= segs.drop_first().push(x));
            lemma_params_text_push(segs.drop_first(), x);
        }
        assert(joined_open(segs2) =~= joined_open(segs) + x + seq![';']);
        assert(t1.take(i + 1) =~= t1.take(i).push(';'));
        assert(t1.subrange(i + 1, i + 1) =~= Seq::<char>::empty());
        assert(joined_open(segs) + x == t1.take(i));
        assert(joined_open(segs2) + t1.subrange(i + 1, i + 1) =~= t1.take(i + 1));
        lemma_scan_prefix(t1, t2, p, i + 1, i + 1, q, segs2);
    } else if t1[i] == ':' && !q {
        let x = t1.subrange(st, i);
        let s = segs.push(x);
        if segs.len() > 0 {
            assert(s.drop_first() =~= segs.drop_first().push(x));
            lemma_params_text_push(segs.drop_first(), x);
        } else {
            assert(s.drop_first() =~= Seq::<Seq<char>>::empty());
        }
        assert(s[0] + params_text(s.drop_first()) =~= t1.take(i));
    } else {
        assert(t1.subrange(st, i + 1) =~= t1.subrange(st, i).push(t1[i]));
        assert(t1.take(i + 1) =~= t1.take(i).push(t1[i]));
        lemma_scan_prefix(t1, t2, p, i + 1, st, q, segs);
    }
}

proof fn lemma_split_group_head(h: Seq<char>)
    ensures
        head_text(split_group(h).0, split_group(h).1) == h,
{
    if exists|i: int| first_at(h, '.', i) {
        let i = choose|i: int| first_at(h, '.', i);
        assert(h.take(i) + seq!['.'] + h.skip(i + 1) =~= h);
    }
}

/// A content line with a colon outside quotes, its value replaced, reads
/// as the same group, name and parameters with the new value.
pub proof fn lemma_rebuilt_line(l: LineView, x: Seq<char>, eol: Seq<char>)
    requires
        l.wf(),
        separated(line_text(l)),
        forall|k: int|
            0 <= k < logical_text(l.group, l.name, l.params, Seq::empty()).len() ==> #[trigger] logical_text(
                l.group,
                l.name,
                l.params,
                Seq::empty(),
            )[k] != '\r',
        forall|k: int| 0 <= k < x.len() ==> #[trigger] x[k] != '\r' && x[k] != '\n',
        eol == seq!['\n'] || eol == seq!['\r', '\n'],
    ensures
        built_line(logical_text(l.group, l.name, l.params, x), eol).group == l.group,
        built_line(logical_text(l.group, l.name, l.params, x), eol).name == l.name,
        built_line(logical_text(l.group, l.name, l.params, x), eol).params == l.params,
        built_line(logical_text(l.group, l.name, l.params, x), eol).value == x,
        separated(line_text(built_line(logical_text(l.group, l.name, l.params, x), eol))),
        eol_of(built_line(logical_text(l.group, l.name, l.params, x), eol).raw).len() > 0,
        no_newline(logical_text(l.group, l.name, l.params, x)),
{
    let t1 = line_text(l);
    let p = choose|p: int| stops_at(t1, 0, false, p);
    lemma_stops_at_colon(t1, 0, false, p);
    let h = head_split(t1).0;
    let ps = head_split(t1).1;
    lemma_split_group_head(h);
    let t2 = logical_text(l.group, l.name, l.params, x);
    assert(joined_open(Seq::<Seq<char>>::empty()) + t1.subrange(0, 0) =~= t1.take(0));
    lemma_scan_prefix(t1, t1, p, 0, 0, false, Seq::empty());
    // the line's text is its head, parameters, a colon and the value
    assert(h + params_text(ps) == t1.take(p));
    assert(t2 =~= t1.take(p) + seq![':'] + x);
    assert(t2.take(p + 1) =~= t1.take(p + 1));
    lemma_scan_prefix(t1, t2, p, 0, 0, false, Seq::empty());
    assert(head_split(t2) == (h, ps, x)) by {
        assert(t2.subrange(p + 1, t2.len() as int) =~= x);
    }
    assert(no_newline(h + params_text(ps))) by {
        let g = match l.group {
            Some(g) => g + seq!['.'],
            None => Seq::<char>::empty(),
        };
        lemma_params_text_no_newline(ps);
        if let Some(gg) = l.group {
            lemma_no_newline_concat(gg, seq!['.']);
        }
        lemma_no_newline_concat(g, l.name);
        assert(h == g + l.name);
        lemma_no_newline_concat(h, params_text(ps));
    }
    let t0 = logical_text(l.group, l.name, l.params, Seq::empty());
    assert(t0 =~= t1.take(p) + seq![':']);
    assert(forall|k: int| 0 <= k < p ==> t1.take(p)[k] != '\r') by {
        assert forall|k: int| 0 <= k < p implies t1.take(p)[k] != '\r' by {
            assert(t1.take(p)[k] == t0[k]);
        }
    }
    // the rebuilt text has no line break, so folding and unfolding keep it
    assert forall|k: int| 0 <= k < t2.len() implies #[trigger] t2[k] != '\n' && t2[k] != '\r' by {
        if k < p {
            assert(t2[k] == t1.take(p)[k]);
        } else if k > p {
            assert(t2[k] == x[k - p - 1]);
        }
    }
    lemma_built_line(t2, eol);
    lemma_unfold_fold(t2, 0, eol);
    vstd::utf8::encode_utf8_decode_utf8(t2);
    lemma_built_text(t2, eol);
    lemma_stops_prefix(t1, t2, 0, false, p);
}

/// Whether the character at `k` of `p` is escaped: the one before it is a
/// backslash that is not itself escaped.
pub open spec fn esc_before(p: Seq<char>, k: int) -> bool
    decreases k,
{
    if k <= 0 {
        false
    } else if esc_before(p, k - 1) {
        false
    } else {
        p[k - 1] == '\\'
    }
}

/// A component that reads back alone when joined with others: each `sep`
/// in it is escaped, and it does not end in a lone backslash.
pub open spec fn clean_part(p: Seq<char>, sep: char) -> bool {
    &&& forall|k: int| 0 <= k < p.len() && p[k] == sep ==> esc_before(p, k)
    &&& !esc_before(p, p.len() as int)
}

/// Whether a piece starting at `st` of `s` is escaped at `k` the same way
/// as `s` itself, when `s` is not escaped at `st`.
pub proof fn lemma_esc_shift(s: Seq<char>, st: int, j: int, k: int)
    requires
        0 <= st <= k <= j <= s.len(),
        !esc_before(s, st),
    ensures
        esc_before(s.subrange(st, j), k - st) == esc_before(s, k),
    decreases k - st,
{
    if k > st {
        lemma_esc_shift(s, st, j, k - 1);
        assert(s.subrange(st, j)[k - st - 1] == s[k - 1]);
    }
}

/// Escape states depend only on what comes before.
pub proof fn lemma_esc_prefix(p: Seq<char>, q: Seq<char>, k: int)
    requires
        0 <= k <= p.len(),
        k <= q.len(),
        p.take(k) == q.take(k),
    ensures
        esc_before(p, k) == esc_before(q, k),
    decreases k,
{
    if k > 0 {
        assert(p.take(k - 1) =~= p.take(k).take(k - 1));
        assert(q.take(k - 1) =~= q.take(k).take(k - 1));
        lemma_esc_prefix(p, q, k - 1);
        assert(p[k - 1] == p.take(k)[k - 1]);
        assert(q[k - 1] == q.take(k)[k - 1]);
    }
}

/// Two clean components one after the other make a clean component.
pub proof fn lemma_clean_concat(a: Seq<char>, b: Seq<char>, sep: char)
    requires
        clean_part(a, sep),
        clean_part(b, sep),
    ensures
        clean_part(a + b, sep),
{
    let ab = a + b;
    assert forall|k: int| 0 <= k <= a.len() implies esc_before(ab, k) == esc_before(a, k) by {
        assert(ab.take(k) =~= a.take(k));
        lemma_esc_prefix(ab, a, k);
    }
    assert forall|k: int| a.len() <= k <= ab.len() implies esc_before(ab, k) == esc_before(b, k - a.len()) by {
        lemma_esc_shift(ab, a.len() as int, ab.len() as int, k);
        assert(ab.subrange(a.len() as int, ab.len() as int) =~= b);
    }
    assert forall|k: int| 0 <= k < ab.len() && ab[k] == sep implies esc_before(ab, k) by {
        if k < a.len() {
            assert(ab[k] == a[k]);
        } else {
            assert(ab[k] == b[k - a.len()]);
        }
    }
}

/// An escaped text is a clean component for `;`.
pub proof fn lemma_escape_clean(v: Seq<char>)
    ensures
        clean_part(escape_text(v), ';'),
    decreases v.len(),
{
    if v.len() > 0 {
        let rest = v.subrange(1, v.len() as int);
        lemma_escape_clean(rest);
        let e = escape_char(v[0]);
        assert(esc_before(e, 0) == false);
        if e.len() == 2 {
            assert(esc_before(e, 1));
            assert(!esc_before(e, 2));
        } else {
            assert(!esc_before(e, 1));
        }
        assert(clean_part(e, ';'));
        lemma_clean_concat(e, escape_text(rest), ';');
    } else {
        assert(clean_part(escape_text(v), ';'));
    }
}

/// Scanning a component that is in `s` at `a` splits nowhere inside it.
proof fn lemma_scan_part(s: Seq<char>, sep: char, a: int, p: Seq<char>, j: int, acc: Seq<Seq<char>>)
    requires
        sep != '\\',
        0 <= a,
        a + p.len() <= s.len(),
        s.subrange(a, a + p.len()) == p,
        0 <= j <= p.len(),
        forall|k: int| 0 <= k < p.len() && p[k] == sep ==> esc_before(p, k),
    ensures
        split_scan(s, sep, a + j, a, esc_before(p, j), acc) == split_scan(
            s,
            sep,
            a + p.len(),
            a,
            esc_before(p, p.len() as int),
            acc,
        ),
    decreases p.len() - j,
{
    if j < p.len() {
        assert(s[a + j] == p[j]);
        lemma_scan_part(s, sep, a, p, j + 1, acc);
    }
}

/// Scanning goes the same way after anything that ends a component.
proof fn lemma_scan_shift(
    pre: Seq<char>,
    y: Seq<char>,
    sep: char,
    i: int,
    st: int,
    e: bool,
    acc: Seq<Seq<char>>,
)
    requires
        0 <= st <= i <= y.len(),
    ensures
        split_scan(pre + y, sep, pre.len() + i, pre.len() + st, e, acc) == split_scan(y, sep, i, st, e, acc),
    decreases y.len() - i,
{
    let s = pre + y;
    let n = pre.len() as int;
    if i >= y.len() {
        assert(s.subrange(n + st, s.len() as int) =~= y.subrange(st, y.len() as int));
    } else {
        assert(s[n + i] == y[i]);
        if e {
            lemma_scan_shift(pre, y, sep, i + 1, st, false, acc);
        } else if y[i] == '\\' {
            lemma_scan_shift(pre, y, sep, i + 1, st, true, acc);
        } else if y[i] == sep {
            assert(s.subrange(n + st, n + i) =~= y.subrange(st, i));
            lemma_scan_shift(pre, y, sep, i + 1, i + 1, false, acc.push(y.subrange(st, i)));
        } else {
            lemma_scan_shift(pre, y, sep, i + 1, st, false, acc);
        }
    }
}

/// A clean component followed by a separator splits off as it is.
pub proof fn lemma_scan_first_part(x: Seq<char>, y: Seq<char>, sep: char, acc: Seq<Seq<char>>)
    requires
        sep != '\\',
        clean_part(x, sep),
    ensures
        split_scan(x + seq![sep] + y, sep, 0, 0, false, acc) == split_scan(y, sep, 0, 0, false, acc.push(x)),
{
    let pre = x + seq![sep];
    let s = pre + y;
    assert(s.subrange(0, x.len() as int) =~= x);
    lemma_scan_part(s, sep, 0, x, 0, acc);
    assert(s[x.len() as int] == sep);
    lemma_scan_shift(pre, y, sep, 0, 0, false, acc.push(x));
    assert(x + seq![sep] + y == s);
}

/// A last component with every separator escaped reads as it is.
pub proof fn lemma_scan_last_part(p: Seq<char>, sep: char, acc: Seq<Seq<char>>)
    requires
        sep != '\\',
        forall|k: int| 0 <= k < p.len() && p[k] == sep ==> esc_before(p, k),
    ensures
        split_scan(p, sep, 0, 0, false, acc) == acc.push(p),
{
    assert(p.subrange(0, p.len() as int) =~= p);
    lemma_scan_part(p, sep, 0, p, 0, acc);
}

/// The components a value splits into are clean when the value does not
/// end in a lone backslash.
pub proof fn lemma_split_parts_clean(
    s: Seq<char>,
    sep: char,
    i: int,
    st: int,
    e: bool,
    acc: Seq<Seq<char>>,
)
    requires
        sep != '\\',
        0 <= st <= i <= s.len(),
        e == esc_before(s, i),
        !esc_before(s, st),
        forall|k: int| st <= k < i && s[k] == sep ==> esc_before(s, k),
        forall|k: int| 0 <= k < acc.len() ==> clean_part(#[trigger] acc[k], sep),
    ensures
        split_scan(s, sep, i, st, e, acc).len() > acc.len(),
        forall|k: int|
            0 <= k < split_scan(s, sep, i, st, e, acc).len() && (k + 1 < split_scan(s, sep, i, st, e, acc).len()
                || !esc_before(s, s.len() as int)) ==> clean_part(
                #[trigger] split_scan(s, sep, i, st, e, acc)[k],
                sep,
            ),
    decreases s.len() - i,
{
    if i >= s.len() {
        let p = s.subrange(st, s.len() as int);
        assert forall|k: int| 0 <= k <= p.len() implies esc_before(p, k) == esc_before(s, st + k) by {
            lemma_esc_shift(s, st, s.len() as int, st + k);
        }
        assert forall|k: int| 0 <= k < p.len() && p[k] == sep implies esc_before(p, k) by {
            assert(p[k] == s[st + k]);
        }
        assert(!esc_before(s, s.len() as int) ==> clean_part(p, sep));
        let r = acc.push(p);
        assert forall|k: int| 0 <= k < r.len() && (k + 1 < r.len() || !esc_before(s, s.len() as int)) implies clean_part(#[trigger] r[k], sep) by {
            if k < acc.len() {
                assert(r[k] == acc[k]);
            }
        }
        assert(split_scan(s, sep, i, st, e, acc) == r);
    } else if e {
        lemma_split_parts_clean(s, sep, i + 1, st, false, acc);
        assert(split_scan(s, sep, i, st, e, acc) == split_scan(s, sep, i + 1, st, false, acc));
    } else if s[i] == '\\' {
        lemma_split_parts_clean(s, sep, i + 1, st, true, acc);
        assert(split_scan(s, sep, i, st, e, acc) == split_scan(s, sep, i + 1, st, true, acc));
    } else if s[i] == sep {
        let p = s.subrange(st, i);
        assert forall|k: int| 0 <= k <= p.len() implies esc_before(p, k) == esc_before(s, st + k) by {
            lemma_esc_shift(s, st, i, st + k);
        }
        assert forall|k: int| 0 <= k < p.len() && p[k] == sep implies esc_before(p, k) by {
            assert(p[k] == s[st + k]);
        }
        assert(clean_part(p, sep));
        let acc2 = acc.push(p);
        assert forall|k: int| 0 <= k < acc2.len() implies clean_part(#[trigger] acc2[k], sep) by {
            if k < acc.len() {
                assert(acc2[k] == acc[k]);
            }
        }
        lemma_split_parts_clean(s, sep, i + 1, i + 1, false, acc2);
        assert(split_scan(s, sep, i, st, e, acc) == split_scan(s, sep, i + 1, i + 1, false, acc2));
    } else {
        lemma_split_parts_clean(s, sep, i + 1, st, false, acc);
        assert(split_scan(s, sep, i, st, e, acc) == split_scan(s, sep, i + 1, st, false, acc));
    }
}

/// The value of a line with a colon outside quotes is the end of its
/// text.
pub proof fn lemma_value_suffix(l: LineView)
    requires
        l.wf(),
        separated(line_text(l)),
    ensures
        l.value.len() <= line_text(l).len(),
        l.value == line_text(l).subrange(line_text(l).len() - l.value.len(), line_text(l).len() as int),
{
    let t1 = line_text(l);
    let p = choose|p: int| stops_at(t1, 0, false, p);
    lemma_stops_at_colon(t1, 0, false, p);
    assert(joined_open(Seq::<Seq<char>>::empty()) + t1.subrange(0, 0) =~= t1.take(0));
    lemma_scan_prefix(t1, t1, p, 0, 0, false, Seq::empty());
}

/// The components of a value hold no character the value does not hold.
pub proof fn lemma_split_parts_avoid(
    s: Seq<char>,
    sep: char,
    c: char,
    i: int,
    st: int,
    e: bool,
    acc: Seq<Seq<char>>,
)
    requires
        0 <= st <= i <= s.len(),
        forall|k: int| 0 <= k < s.len() ==> s[k] != c,
        forall|m: int, k: int| 0 <= m < acc.len() && 0 <= k < acc[m].len() ==> acc[m][k] != c,
    ensures
        forall|m: int, k: int|
            0 <= m < split_scan(s, sep, i, st, e, acc).len() && 0 <= k < split_scan(s, sep, i, st, e, acc)[m].len()
                ==> split_scan(s, sep, i, st, e, acc)[m][k] != c,
    decreases s.len() - i,
{
    if i >= s.len() {
        let r = acc.push(s.subrange(st, s.len() as int));
        assert forall|m: int, k: int| 0 <= m < r.len() && 0 <= k < r[m].len() implies r[m][k] != c by {
            if m < acc.len() {
                assert(r[m] == acc[m]);
            } else {
                assert(r[m][k] == s[st + k]);
            }
        }
        assert(split_scan(s, sep, i, st, e, acc) == r);
    } else if e {
        lemma_split_parts_avoid(s, sep, c, i + 1, st, false, acc);
        assert(split_scan(s, sep, i, st, e, acc) == split_scan(s, sep, i + 1, st, false, acc));
    } else if s[i] == '\\' {
        lemma_split_parts_avoid(s, sep, c, i + 1, st, true, acc);
        assert(split_scan(s, sep, i, st, e, acc) == split_scan(s, sep, i + 1, st, true, acc));
    } else if s[i] == sep {
        let acc2 = acc.push(s.subrange(st, i));
        assert forall|m: int, k: int| 0 <= m < acc2.len() && 0 <= k < acc2[m].len() implies acc2[m][k] != c by {
            if m < acc.len() {
                assert(acc2[m] == acc[m]);
            } else {
                assert(acc2[m][k] == s[st + k]);
            }
        }
        lemma_split_parts_avoid(s, sep, c, i + 1, i + 1, false, acc2);
        assert(split_scan(s, sep, i, st, e, acc) == split_scan(s, sep, i + 1, i + 1, false, acc2));
    } else {
        lemma_split_parts_avoid(s, sep, c, i + 1, st, false, acc);
        assert(split_scan(s, sep, i, st, e, acc) == split_scan(s, sep, i + 1, st, false, acc));
    }
}

/// Escaping adds no carriage return.
pub proof fn lemma_escape_no_cr(v: Seq<char>)
    requires
        forall|k: int| 0 <= k < v.len() ==> v[k] != '\r',
    ensures
        forall|k: int| 0 <= k < escape_text(v).len() ==> escape_text(v)[k] != '\r',
    decreases v.len(),
{
    if v.len() > 0 {
        let rest = v.subrange(1, v.len() as int);
        lemma_escape_no_cr(rest);
        let e = escape_char(v[0]);
        let t = escape_text(v);
        assert(t == e + escape_text(rest));
        assert forall|k: int| 0 <= k < t.len() implies t[k] != '\r' by {
            if k >= e.len() {
                assert(t[k] == escape_text(rest)[k - e.len()]);
            }
        }
    }
}

proof fn lemma_plain_head_scan(t: Seq<char>, n: int, i: int)
    requires
        0 <= i <= n < t.len(),
        t[n] == ':',
        forall|k: int| 0 <= k < n ==> t[k] != '"' && t[k] != ';' && t[k] != ':',
    ensures
        head_scan(t, i, 0, false, Seq::empty()) == (t.take(n), Seq::<Seq<char>>::empty(), t.subrange(n + 1, t.len() as int)),
    decreases n - i,
{
    if i < n {
        lemma_plain_head_scan(t, n, i + 1);
    } else {
        let s = Seq::<Seq<char>>::empty().push(t.subrange(0, n));
        assert(s.drop_first() =~= Seq::<Seq<char>>::empty());
        assert(t.subrange(0, n) =~= t.take(n));
    }
}

/// A new line `name:x` reads as that name and value, without group or
/// parameters, when the name has no quote, semicolon, colon or dot.
pub proof fn lemma_fresh_line(name: Seq<char>, x: Seq<char>, eol: Seq<char>)
    requires
        forall|k: int|
            0 <= k < name.len() ==> #[trigger] name[k] != '"' && name[k] != ';' && name[k] != ':' && name[k] != '.'
                && name[k] != '\n' && name[k] != '\r',
        forall|k: int| 0 <= k < x.len() ==> #[trigger] x[k] != '\r' && x[k] != '\n',
        eol == seq!['\n'] || eol == seq!['\r', '\n'],
    ensures
        built_line(logical_text(None, name, Seq::empty(), x), eol).group is None,
        built_line(logical_text(None, name, Seq::empty(), x), eol).name == name,
        built_line(logical_text(None, name, Seq::empty(), x), eol).value == x,
        built_line(logical_text(None, name, Seq::empty(), x), eol).params == Seq::<Seq<char>>::empty(),
        separated(line_text(built_line(logical_text(None, name, Seq::empty(), x), eol))),
        eol_of(built_line(logical_text(None, name, Seq::empty(), x), eol).raw).len() > 0,
        no_newline(logical_text(None, name, Seq::empty(), x)),
{
    let t = logical_text(None, name, Seq::empty(), x);
    assert(t =~= name + seq![':'] + x);
    let n = name.len() as int;
    assert(t[n] == ':');
    assert forall|k: int| 0 <= k < n implies t[k] != '"' && t[k] != ';' && t[k] != ':' by {
        assert(t[k] == name[k]);
    }
    lemma_plain_head_scan(t, n, 0);
    assert(t.take(n) =~= name);
    assert(t.subrange(n + 1, t.len() as int) =~= x);
    assert(!exists|i: int| first_at(name, '.', i));
    assert forall|k: int| 0 <= k < t.len() implies #[trigger] t[k] != '\n' && t[k] != '\r' by {
        if k < n {
            assert(t[k] == name[k]);
        } else if k > n {
            assert(t[k] == x[k - n - 1]);
        }
    }
    assert(no_newline(t));
    lemma_built_line(t, eol);
    lemma_unfold_fold(t, 0, eol);
    vstd::utf8::encode_utf8_decode_utf8(t);
    lemma_built_text(t, eol);
    lemma_stops_plain(t, n, 0);
}

/// The head scan of a text with no quote or colon before `n`, where a
/// colon stands, stops at `n`.
proof fn lemma_stops_plain(t: Seq<char>, n: int, i: int)
    requires
        0 <= i <= n < t.len(),
        t[n] == ':',
        forall|k: int| 0 <= k < n ==> t[k] != '"' && t[k] != ':',
    ensures
        stops_at(t, i, false, n),
    decreases n - i,
{
    if i < n {
        lemma_stops_plain(t, n, i + 1);
    }
}

} // verus!
