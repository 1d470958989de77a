//! Labels of values: Apple's `X-ABLabel` codes and `TYPE=` parameters.

use vstd::prelude::*;

use crate::card::line::{find_char, first_at, lemma_first_at_unique};
use crate::card::{join, join_texts, same_text};
use crate::text::{
    chars_of, chars_of_strings, ends_with, eq_ic, eq_ignore_case, lowercase, push_all,
    starts_with, string_of, to_lowercase,
};

verus! {

/// An Apple label code `_$!<Name>!$_` decoded to `Name`; any other label
/// as it is.
pub open spec fn decode_label(l: Seq<char>) -> Seq<char> {
    let p = "_$!<"@;
    let q = ">!$_"@;
    let inner = l.skip(p.len() as int);
    if p.len() <= l.len() && l.take(p.len() as int) == p && q.len() <= inner.len() && inner.skip(
        inner.len() - q.len(),
    ) == q {
        inner.take(inner.len() - q.len())
    } else {
        l
    }
}

/// Decodes an Apple label code.
pub(crate) fn decode(label: &[char]) -> (r: Vec<char>)
    ensures
        r@ == decode_label(label@),
{
    let p = chars_of("_$!<");
    let q = chars_of(">!$_");
    if starts_with(label, &p) {
        let inner = crate::text::copy_range(label, p.len(), label.len());
        assert(inner@ == label@.skip(p@.len() as int));
        if ends_with(&inner, &q) {
            return crate::text::copy_range(&inner, 0, inner.len() - q.len());
        }
    }
    crate::text::copy_range(label, 0, label.len())
}

/// A text without leading double quotes.
pub open spec fn trim_quotes_start(s: Seq<char>) -> Seq<char>
    decreases s.len(),
{
    if s.len() > 0 && s[0] == '"' {
        trim_quotes_start(s.skip(1))
    } else {
        s
    }
}

/// A text without trailing double quotes.
pub open spec fn trim_quotes_end(s: Seq<char>) -> Seq<char>
    decreases s.len(),
{
    if s.len() > 0 && s.last() == '"' {
        trim_quotes_end(s.drop_last())
    } else {
        s
    }
}

/// Splitting a text at every `c`.
pub open spec fn plain_scan(s: Seq<char>, c: char, i: int, start: int, parts: Seq<Seq<char>>) -> Seq<
    Seq<char>,
>
    decreases s.len() - i,
{
    if i >= s.len() || i < 0 {
        parts.push(s.subrange(start, s.len() as int))
    } else if s[i] == c {
        plain_scan(s, c, i + 1, i + 1, parts.push(s.subrange(start, i)))
    } else {
        plain_scan(s, c, i + 1, start, parts)
    }
}

pub open spec fn split_plain(s: Seq<char>, c: char) -> Seq<Seq<char>> {
    plain_scan(s, c, 0, 0, Seq::empty())
}

/// The parameter is `TYPE=…` (name compared ignoring ASCII case).
pub open spec fn is_type_param(p: Seq<char>) -> bool {
    exists|i: int| first_at(p, '=', i) && eq_ic(p.take(i), "TYPE"@)
}

/// The words of a `TYPE=` parameter's value: quotes trimmed, split at
/// commas, lowercased.
pub open spec fn type_words(p: Seq<char>) -> Seq<Seq<char>> {
    if is_type_param(p) {
        let i = choose|i: int| first_at(p, '=', i);
        split_plain(trim_quotes_end(trim_quotes_start(p.skip(i + 1))), ',').map_values(
            |w: Seq<char>| lowercase(w),
        )
    } else {
        Seq::empty()
    }
}

/// Words that say nothing about a value's kind.
pub open spec fn is_ignored_type(w: Seq<char>) -> bool {
    w == "pref"@ || w == "voice"@ || w == "internet"@
}

/// The words that are kept.
pub open spec fn kept_words(ws: Seq<Seq<char>>) -> Seq<Seq<char>>
    decreases ws.len(),
{
    if ws.len() == 0 {
        Seq::empty()
    } else if is_ignored_type(ws.last()) {
        kept_words(ws.drop_last())
    } else {
        kept_words(ws.drop_last()).push(ws.last())
    }
}

/// The kept type words of all parameters, in order.
pub open spec fn param_types(ps: Seq<Seq<char>>) -> Seq<Seq<char>>
    decreases ps.len(),
{
    if ps.len() == 0 {
        Seq::empty()
    } else {
        param_types(ps.drop_last()) + kept_words(type_words(ps.last()))
    }
}

/// The label that `TYPE=` parameters give: their words joined with `, `,
/// or none when there are none.
pub open spec fn label_from_types(ps: Seq<Seq<char>>) -> Option<Seq<char>> {
    let t = param_types(ps);
    if t.len() == 0 {
        None
    } else {
        Some(join(t, ", "@))
    }
}

/// Removes leading and trailing double quotes.
fn trim_quotes(s: &[char]) -> (r: Vec<char>)
    ensures
        r@ == trim_quotes_end(trim_quotes_start(s@)),
{
    let mut a: usize = 0;
    assert(s@.skip(0) == s@);
    while a < s.len() && s[a] == '"'
        invariant
            a <= s@.len(),
            trim_quotes_start(s@) == trim_quotes_start(s@.skip(a as int)),
        decreases s.len() - a,
    {
        assert(s@.skip(a as int).skip(1) == s@.skip(a + 1));
        a += 1;
    }
    let t = crate::text::copy_range(s, a, s.len());
    assert(t@ == s@.skip(a as int));
    let mut b: usize = t.len();
    assert(t@.take(b as int) == t@);
    while b > 0 && t[b - 1] == '"'
        invariant
            b <= t@.len(),
            trim_quotes_end(t@) == trim_quotes_end(t@.take(b as int)),
        decreases b,
    {
        assert(t@.take(b as int).drop_last() == t@.take(b - 1));
        b -= 1;
    }
    crate::text::copy_range(&t, 0, b)
}

/// Splits a text at every `c`.
fn split_at_char(s: &[char], c: char) -> (r: Vec<Vec<char>>)
    ensures
        crate::card::line::char_seqs(r@) == split_plain(s@, c),
{
    let n = s.len();
    let mut parts: Vec<Vec<char>> = Vec::new();
    let mut start: usize = 0;
    let mut i: usize = 0;
    assert(crate::card::line::char_seqs(parts@) =~= Seq::<Seq<char>>::empty());
    while i < n
        invariant
            n == s@.len(),
            start <= i <= n,
            split_plain(s@, c) == plain_scan(s@, c, i as int, start as int, crate::card::line::char_seqs(parts@)),
        decreases n - i,
    {
        if s[i] == c {
            let part = crate::text::copy_range(s, start, i);
            let ghost old = crate::card::line::char_seqs(parts@);
            parts.push(part);
            assert(crate::card::line::char_seqs(parts@) =~= old.push(s@.subrange(start as int, i as int)));
            start = i + 1;
        }
        i += 1;
    }
    let part = crate::text::copy_range(s, start, n);
    let ghost old = crate::card::line::char_seqs(parts@);
    parts.push(part);
    assert(crate::card::line::char_seqs(parts@) =~= old.push(s@.subrange(start as int, n as int)));
    parts
}

/// Whether a parameter is `TYPE=…`, and the position of its `=`.
fn type_param(p: &[char]) -> (r: Option<usize>)
    ensures
        match r {
            Some(i) => is_type_param(p@) && first_at(p@, '=', i as int),
            None => !is_type_param(p@),
        },
{
    match find_char(p, '=') {
        Some(i) => {
            let name = crate::text::copy_range(p, 0, i);
            if eq_ignore_case(&name, &chars_of("TYPE")) {
                Some(i)
            } else {
                proof {
                    if is_type_param(p@) {
                        let k = choose|k: int| first_at(p@, '=', k) && eq_ic(p@.take(k), "TYPE"@);
                        lemma_first_at_unique(p@, '=', k, i as int);
                        assert(name@ == p@.take(i as int));
                    }
                }
                None
            }
        },
        None => None,
    }
}

/// The label that `TYPE=` parameters give.
pub(crate) fn from_types(params: &[String]) -> (r: Option<String>)
    ensures
        match r {
            Some(l) => label_from_types(crate::card::line::texts(params@)) == Some(l@),
            None => label_from_types(crate::card::line::texts(params@)) is None,
        },
{
    let ghost ps = crate::card::line::texts(params@);
    let mut words: Vec<Vec<char>> = Vec::new();
    let mut i: usize = 0;
    while i < params.len()
        invariant
            i <= params@.len(),
            ps == crate::card::line::texts(params@),
            crate::card::line::char_seqs(words@) == param_types(ps.take(i as int)),
        decreases params.len() - i,
    {
        assert(ps.take(i + 1).drop_last() == ps.take(i as int));
        let p = chars_of(params[i].as_str());
        let ghost before = crate::card::line::char_seqs(words@);
        match type_param(&p) {
            Some(eq) => {
                proof {
                    let k = choose|k: int| first_at(p@, '=', k);
                    lemma_first_at_unique(p@, '=', k, eq as int);
                }
                assert(first_at(p@, '=', eq as int));
                assert(eq < p.len());
                let value = crate::text::copy_range(&p, eq + 1, p.len());
                let parts = split_at_char(&trim_quotes(&value), ',');
                let ghost ws = type_words(p@);
                assert(ws.len() == parts@.len());
                let mut k: usize = 0;
                while k < parts.len()
                    invariant
                        k <= parts@.len(),
                        ws.len() == parts@.len(),
                        forall|m: int| 0 <= m < ws.len() ==> #[trigger] ws[m] == lowercase(parts@[m]@),
                        crate::card::line::char_seqs(words@) == before + kept_words(ws.take(k as int)),
                    decreases parts.len() - k,
                {
                    assert(ws.take(k + 1).drop_last() == ws.take(k as int));
                    let w = chars_of(to_lowercase(string_of(&parts[k]).as_str()).as_str());
                    assert(w@ == ws[k as int]);
                    let ignored = same_text(&w, &chars_of("pref")) || same_text(&w, &chars_of("voice"))
                        || same_text(&w, &chars_of("internet"));
                    if !ignored {
                        let ghost old = crate::card::line::char_seqs(words@);
                        words.push(w);
                        assert(crate::card::line::char_seqs(words@) =~= old.push(w@));
                    }
                    k += 1;
                }
                assert(ws.take(ws.len() as int) == ws);
            },
            None => {
                assert(type_words(p@) =~= Seq::<Seq<char>>::empty());
                assert(kept_words(type_words(p@)) =~= Seq::<Seq<char>>::empty());
                assert(before + Seq::<Seq<char>>::empty() == before);
            },
        }
        assert(p@ == ps[i as int]);
        i += 1;
    }
    assert(ps.take(params@.len() as int) == ps);
    if words.len() == 0 {
        None
    } else {
        let sep = chars_of(", ");
        Some(string_of(&join_texts(&words, &sep)))
    }
}

/// `TYPE=` parameters dropped.
pub open spec fn untyped(ps: Seq<Seq<char>>) -> Seq<Seq<char>>
    decreases ps.len(),
{
    if ps.len() == 0 {
        Seq::empty()
    } else if is_type_param(ps.last()) {
        untyped(ps.drop_last())
    } else {
        untyped(ps.drop_last()).push(ps.last())
    }
}

/// Parameters relabeled: the `TYPE=` parameters replaced by `TYPE=label`,
/// or dropped when there is no label.
pub open spec fn retyped(ps: Seq<Seq<char>>, label: Option<Seq<char>>) -> Seq<Seq<char>> {
    match label {
        Some(l) => untyped(ps).push("TYPE="@ + l),
        None => untyped(ps),
    }
}

/// Relabels parameters.
pub(crate) fn retype(params: &[String], label: Option<&str>) -> (r: Vec<String>)
    ensures
        crate::card::line::texts(r@) == retyped(crate::card::line::texts(params@), match label {
            Some(l) => Some(l@),
            None => None,
        }),
{
    let ghost ps = crate::card::line::texts(params@);
    let mut out: Vec<String> = Vec::new();
    let mut i: usize = 0;
    while i < params.len()
        invariant
            i <= params@.len(),
            ps == crate::card::line::texts(params@),
            crate::card::line::texts(out@) == untyped(ps.take(i as int)),
        decreases params.len() - i,
    {
        assert(ps.take(i + 1).drop_last() == ps.take(i as int));
        let p = chars_of(params[i].as_str());
        assert(p@ == ps[i as int]);
        if type_param(&p).is_none() {
            let ghost old = crate::card::line::texts(out@);
            out.push(string_of(&p));
            assert(crate::card::line::texts(out@) =~= old.push(p@));
        }
        i += 1;
    }
    assert(ps.take(params@.len() as int) == ps);
    match label {
        Some(l) => {
            let mut t = chars_of("TYPE=");
            push_all(&mut t, &chars_of(l));
            let ghost old = crate::card::line::texts(out@);
            out.push(string_of(&t));
            assert(crate::card::line::texts(out@) =~= old.push("TYPE="@ + l@));
        },
        None => {},
    }
    out
}

} // verus!
