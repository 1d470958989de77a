//! What the screen shows of a card and of the skipped files, as lines of
//! text; drawing them is left to the terminal front end.
use crate::card::bday::{bday_date, shown_date};
use crate::card::line::{char_seqs, opt_text, texts, unescape_text, LineView};
use crate::card::{
    card_get, join, join_texts, label_of, labeled_texts, labeled_values, named_index, named_lines, nonempty,
    organization_of, address_parts, Card, Field, Labeled,
};
use crate::text::{chars_of, decimal, decimal_digits, push_all, string_of};
use crate::vdir::Skipped;
use vstd::prelude::*;

verus! {

/// The key hints of the status bar.
pub const HINTS: &'static str = " j/k move  g/G top/bottom  q quit";

/// How many cards were skipped, for the status bar: nothing when none was.
pub open spec fn skipped_count_text(n: nat) -> Option<Seq<char>> {
    if n == 0 {
        None
    } else if n == 1 {
        Some("1 card skipped (! list) "@)
    } else {
        Some(decimal(n) + " cards skipped (! list) "@)
    }
}

/// The status bar's count of skipped cards.
pub fn skipped_count(count: usize) -> (r: Option<String>)
    ensures
        opt_text(r) == skipped_count_text(count as nat),
{
    if count == 0 {
        None
    } else if count == 1 {
        Some(string_of(&chars_of("1 card skipped (! list) ")))
    } else {
        let mut t = decimal_digits(count as u64);
        push_all(&mut t, &chars_of(" cards skipped (! list) "));
        Some(string_of(&t))
    }
}

/// A heading: the kind, with the label in brackets when there is one.
pub open spec fn heading_text(kind: Seq<char>, label: Option<Seq<char>>) -> Seq<char> {
    match label {
        Some(l) => kind + " ("@ + l + ")"@,
        None => kind,
    }
}

/// A heading for a kind of value and its label.
pub fn heading(kind: &str, label: Option<&str>) -> (r: String)
    ensures
        r@ == heading_text(
            kind@,
            match label {
                Some(l) => Some(l@),
                None => None,
            },
        ),
{
    let mut t = chars_of(kind);
    match label {
        Some(l) => {
            push_all(&mut t, &chars_of(" ("));
            push_all(&mut t, &chars_of(l));
            push_all(&mut t, &chars_of(")"));
        },
        None => {},
    }
    string_of(&t)
}

/// The line of a value: its heading, two spaces and the value; no line
/// for an empty value.
pub open spec fn field_line(kind: Seq<char>, label: Option<Seq<char>>, value: Seq<char>) -> Seq<Seq<char>> {
    if value.len() == 0 {
        Seq::empty()
    } else {
        seq![heading_text(kind, label) + "  "@ + value]
    }
}

/// The line of a value, if it is not empty.
pub fn field(kind: &str, label: Option<&str>, value: &str) -> (r: Option<String>)
    ensures
        match r {
            Some(s) => field_line(
                kind@,
                match label {
                    Some(l) => Some(l@),
                    None => None,
                },
                value@,
            ) == seq![s@],
            None => value@.len() == 0,
        },
{
    if value.is_empty() {
        return None;
    }
    let mut t = chars_of(heading(kind, label).as_str());
    push_all(&mut t, &chars_of("  "));
    push_all(&mut t, &chars_of(value));
    Some(string_of(&t))
}

/// A text cut after each line feed.
pub open spec fn pieces(s: Seq<char>) -> Seq<Seq<char>>
    decreases s.len(),
{
    if s.len() == 0 {
        Seq::empty()
    } else {
        let p = pieces(s.drop_last());
        if p.len() > 0 && p.last().last() != '\n' {
            p.update(p.len() - 1, p.last().push(s.last()))
        } else {
            p.push(seq![s.last()])
        }
    }
}

/// A line without its line feed and a carriage return before it.
pub open spec fn strip_eol(l: Seq<char>) -> Seq<char> {
    if l.len() > 0 && l.last() == '\n' {
        let m = l.drop_last();
        if m.len() > 0 && m.last() == '\r' {
            m.drop_last()
        } else {
            m
        }
    } else {
        l
    }
}

/// The lines of a text as `str::lines` yields them: no line after a final
/// line feed, and no line at all in an empty text.
pub open spec fn text_lines(s: Seq<char>) -> Seq<Seq<char>> {
    pieces(s).map_values(|l: Seq<char>| strip_eol(l))
}

/// The lines of a text, each indented by two spaces.
pub open spec fn indented_lines(s: Seq<char>) -> Seq<Seq<char>> {
    text_lines(s).map_values(|l: Seq<char>| "  "@ + l)
}

proof fn lemma_pieces_nonempty(s: Seq<char>)
    ensures
        forall|k: int| 0 <= k < pieces(s).len() ==> (#[trigger] pieces(s)[k]).len() > 0,
    decreases s.len(),
{
    if s.len() > 0 {
        lemma_pieces_nonempty(s.drop_last());
        let p = pieces(s.drop_last());
        assert forall|k: int| 0 <= k < pieces(s).len() implies (#[trigger] pieces(s)[k]).len() > 0 by {
            if p.len() > 0 && p.last().last() != '\n' {
                if k < p.len() - 1 {
                    assert(pieces(s)[k] == p[k]);
                }
            } else {
                if k < p.len() {
                    assert(pieces(s)[k] == p[k]);
                }
            }
        }
    }
}

fn strip_line(l: &Vec<char>) -> (r: Vec<char>)
    ensures
        r@ == strip_eol(l@),
{
    let n = l.len();
    if n > 0 && l[n - 1] == '\n' {
        if n > 1 && l[n - 2] == '\r' {
            crate::text::copy_range(l, 0, n - 2)
        } else {
            crate::text::copy_range(l, 0, n - 1)
        }
    } else {
        crate::text::copy_range(l, 0, n)
    }
}

/// The lines of a text, each indented by two spaces.
pub fn indented(text: &str) -> (r: Vec<String>)
    ensures
        texts(r@) == indented_lines(text@),
{
    let t = chars_of(text);
    let mut ps: Vec<Vec<char>> = Vec::new();
    let mut i: usize = 0;
    while i < t.len()
        invariant
            t@ == text@,
            i <= t@.len(),
            char_seqs(ps@) == pieces(t@.take(i as int)),
        decreases t.len() - i,
    {
        proof {
            lemma_pieces_nonempty(t@.take(i as int));
        }
        assert(t@.take(i + 1).drop_last() =~= t@.take(i as int));
        let c = t[i];
        let ghost before = char_seqs(ps@);
        let n = ps.len();
        let mut open = false;
        if n > 0 {
            let m = ps[n - 1].len();
            assert(m == char_seqs(ps@)[n - 1].len());
            open = ps[n - 1][m - 1] != '\n';
        }
        if open {
            let mut last = ps.pop().unwrap();
            last.push(c);
            ps.push(last);
            assert(char_seqs(ps@) =~= before.update(n - 1, before[n - 1].push(c)));
        } else {
            let mut piece: Vec<char> = Vec::new();
            piece.push(c);
            ps.push(piece);
            assert(char_seqs(ps@) =~= before.push(seq![c]));
        }
        i += 1;
    }
    assert(t@.take(t@.len() as int) =~= t@);
    let ghost want = indented_lines(text@);
    let mut out: Vec<String> = Vec::new();
    let mut k: usize = 0;
    while k < ps.len()
        invariant
            char_seqs(ps@) == pieces(text@),
            want == indented_lines(text@),
            k <= ps@.len(),
            texts(out@) == want.take(k as int),
        decreases ps.len() - k,
    {
        let mut line = chars_of("  ");
        push_all(&mut line, &strip_line(&ps[k]));
        let ghost before = texts(out@);
        out.push(string_of(&line));
        assert(texts(out@) =~= before.push(line@));
        assert(want.take(k + 1) =~= want.take(k as int).push(want[k as int]));
        k += 1;
    }
    assert(want.take(want.len() as int) =~= want);
    out
}

/// The lines of labeled values of one kind, one per value that is not
/// empty.
pub open spec fn labeled_lines(kind: Seq<char>, vs: Seq<(Option<Seq<char>>, Seq<char>)>) -> Seq<Seq<char>>
    decreases vs.len(),
{
    if vs.len() == 0 {
        Seq::empty()
    } else {
        labeled_lines(kind, vs.drop_last()) + field_line(kind, vs.last().0, vs.last().1)
    }
}

/// The lines of an address: its heading, then street, postal code and city,
/// region and country, each that is not empty on a line of its own.
pub open spec fn address_lines(label: Option<Seq<char>>, parts: Seq<Seq<char>>) -> Seq<Seq<char>> {
    let place = join(nonempty(seq![parts[5], parts[3]]), " "@);
    let lines = join(nonempty(seq![parts[2], place, parts[4], parts[6]]), "\n"@);
    seq![heading_text("Address"@, label)] + indented_lines(lines)
}

/// A text without line breaks.
pub open spec fn plain_line(s: Seq<char>) -> bool {
    forall|k: int| 0 <= k < s.len() ==> s[k] != '\n' && s[k] != '\r'
}

/// The pieces of a text end where its last character ends.
proof fn lemma_pieces_last(s: Seq<char>)
    requires
        s.len() > 0,
    ensures
        pieces(s).len() > 0,
        pieces(s).last().len() > 0,
        pieces(s).last().last() == s.last(),
    decreases s.len(),
{
    let sp = s.drop_last();
    if sp.len() > 0 {
        lemma_pieces_last(sp);
    }
}

/// After a line feed, a text without line feeds is a piece of its own.
proof fn lemma_pieces_append(a: Seq<char>, b: Seq<char>)
    requires
        b.len() > 0,
        forall|k: int| 0 <= k < b.len() ==> b[k] != '\n',
        a.len() == 0 || a.last() == '\n',
    ensures
        pieces(a + b) == pieces(a).push(b),
    decreases b.len(),
{
    let bp = b.drop_last();
    let c = b.last();
    assert((a + b).drop_last() =~= a + bp);
    assert((a + b).last() == c);
    if bp.len() == 0 {
        if a.len() > 0 {
            lemma_pieces_last(a);
        } else {
            assert(pieces(a) =~= Seq::<Seq<char>>::empty());
        }
        assert(a + bp =~= a);
        assert(seq![c] =~= b);
        assert(pieces(a + b) == pieces(a).push(seq![c]));
    } else {
        lemma_pieces_append(a, bp);
        let p = pieces(a + bp);
        assert(p.last() == bp);
        assert(bp.last() == b[bp.len() - 1]);
        assert(bp.last() != '\n');
        assert(bp.push(c) =~= b);
        assert(pieces(a + b) == p.update(p.len() - 1, p.last().push(c)));
        assert(p.update(p.len() - 1, bp.push(c)) =~= pieces(a).push(b));
    }
}

/// The pieces of lines joined with line feeds: each line with its line
/// feed, the last without.
#[verifier::spinoff_prover]
#[verifier::rlimit(60)]
proof fn lemma_pieces_join(xs: Seq<Seq<char>>)
    requires
        xs.len() > 0,
        forall|k: int| 0 <= k < xs.len() ==> (#[trigger] xs[k]).len() > 0 && plain_line(xs[k]),
    ensures
        pieces(join(xs, seq!['\n'])).len() == xs.len(),
        forall|k: int| 0 <= k < xs.len() - 1 ==> #[trigger] pieces(join(xs, seq!['\n']))[k] == xs[k].push('\n'),
        pieces(join(xs, seq!['\n'])).last() == xs.last(),
    decreases xs.len(),
{
    let n = xs.len();
    assert(plain_line(xs[n - 1]));
    if n == 1 {
        lemma_pieces_append(Seq::empty(), xs[0]);
        assert(Seq::<char>::empty() + xs[0] =~= xs[0]);
        assert(pieces(Seq::<char>::empty()) =~= Seq::<Seq<char>>::empty());
    } else {
        let prev = xs.drop_last();
        assert forall|k: int| 0 <= k < prev.len() implies (#[trigger] prev[k]).len() > 0 && plain_line(prev[k]) by {
            assert(prev[k] == xs[k]);
        }
        lemma_pieces_join(prev);
        let jp = join(prev, seq!['\n']);
        let p = pieces(jp);
        let a = jp.push('\n');
        assert(jp.len() > 0) by {
            lemma_pieces_last(jp);
        }
        lemma_pieces_last(jp);
        assert(p.last().last() == prev.last().last());
        assert(prev.last().last() != '\n');
        assert(a.drop_last() =~= jp);
        assert(pieces(a) == p.update(p.len() - 1, p.last().push('\n')));
        lemma_pieces_append(a, xs.last());
        assert(join(xs, seq!['\n']) =~= a + xs.last());
        assert forall|k: int| 0 <= k < n - 1 implies #[trigger] pieces(join(xs, seq!['\n']))[k] == xs[k].push('\n') by {
            if k < n - 2 {
                assert(pieces(a)[k] == p[k]);
            } else {
                assert(pieces(a)[k] == p.last().push('\n'));
            }
        }
    }
}

/// Lines without line breaks joined with line feeds read back as those lines.
pub proof fn lemma_text_lines_join(xs: Seq<Seq<char>>)
    requires
        forall|k: int| 0 <= k < xs.len() ==> (#[trigger] xs[k]).len() > 0 && plain_line(xs[k]),
    ensures
        text_lines(join(xs, seq!['\n'])) == xs,
{
    if xs.len() == 0 {
        assert(pieces(Seq::<char>::empty()) =~= Seq::<Seq<char>>::empty());
        assert(text_lines(join(xs, seq!['\n'])) =~= xs);
    } else {
        lemma_pieces_join(xs);
        let ps = pieces(join(xs, seq!['\n']));
        assert forall|k: int| 0 <= k < xs.len() implies #[trigger] strip_eol(ps[k]) == xs[k] by {
            assert(plain_line(xs[k]));
            if k < xs.len() - 1 {
                assert(ps[k].drop_last() =~= xs[k]);
                assert(xs[k].last() != '\r');
            } else {
                assert(ps[k] == xs[k]);
                assert(xs[k].last() != '\n');
            }
        }
        assert(text_lines(join(xs, seq!['\n'])) =~= xs);
    }
}

/// Texts that are not empty stay, in order.
proof fn lemma_nonempty_keeps(ps: Seq<Seq<char>>, k: int)
    requires
        0 <= k < ps.len(),
        ps[k].len() > 0,
    ensures
        nonempty(ps).contains(ps[k]),
    decreases ps.len(),
{
    if k < ps.len() - 1 {
        lemma_nonempty_keeps(ps.drop_last(), k);
        let i = choose|i: int| 0 <= i < nonempty(ps.drop_last()).len() && nonempty(ps.drop_last())[i] == ps[k];
        if ps.last().len() > 0 {
            assert(nonempty(ps)[i] == ps[k]);
        }
    } else {
        assert(nonempty(ps).last() == ps[k]);
    }
}

/// What `nonempty` keeps is not empty, and comes from the texts given.
proof fn lemma_nonempty_from(ps: Seq<Seq<char>>)
    ensures
        forall|i: int| 0 <= i < nonempty(ps).len() ==> (#[trigger] nonempty(ps)[i]).len() > 0 && ps.contains(
            nonempty(ps)[i],
        ),
    decreases ps.len(),
{
    if ps.len() > 0 {
        lemma_nonempty_from(ps.drop_last());
        let q = nonempty(ps.drop_last());
        assert forall|i: int| 0 <= i < nonempty(ps).len() implies (#[trigger] nonempty(ps)[i]).len() > 0
            && ps.contains(nonempty(ps)[i]) by {
            if i < q.len() {
                assert(nonempty(ps)[i] == q[i]);
                let j = choose|j: int| 0 <= j < ps.drop_last().len() && ps.drop_last()[j] == q[i];
                assert(ps[j] == q[i]);
            } else {
                assert(nonempty(ps)[i] == ps.last());
                assert(ps[ps.len() - 1] == ps.last());
            }
        }
    }
}

/// An address shows each of its parts: below its heading, the street, the
/// postal code and city (on one line, in that order), the region and the
/// country each stand on a line of their own, indented by two spaces,
/// when they are not empty and hold no line break.
pub proof fn lemma_address_shows(label: Option<Seq<char>>, parts: Seq<Seq<char>>)
    requires
        parts.len() == 7,
        plain_line(parts[2]),
        plain_line(parts[3]),
        plain_line(parts[4]),
        plain_line(parts[5]),
        plain_line(parts[6]),
    ensures
        address_lines(label, parts)[0] == heading_text("Address"@, label),
        parts[2].len() > 0 ==> address_lines(label, parts).contains("  "@ + parts[2]),
        parts[4].len() > 0 ==> address_lines(label, parts).contains("  "@ + parts[4]),
        parts[6].len() > 0 ==> address_lines(label, parts).contains("  "@ + parts[6]),
        parts[5].len() > 0 && parts[3].len() > 0 ==> address_lines(label, parts).contains(
            "  "@ + parts[5] + " "@ + parts[3],
        ),
        parts[5].len() > 0 && parts[3].len() == 0 ==> address_lines(label, parts).contains("  "@ + parts[5]),
        parts[5].len() == 0 && parts[3].len() > 0 ==> address_lines(label, parts).contains("  "@ + parts[3]),
{
    reveal_strlit("\n");
    reveal_strlit(" ");
    let pl = seq![parts[5], parts[3]];
    let place = join(nonempty(pl), " "@);
    let four = seq![parts[2], place, parts[4], parts[6]];
    let xs = nonempty(four);
    assert("\n"@ == seq!['\n']);
    lemma_nonempty_from(pl);
    // the place line holds no line break
    assert(plain_line(place)) by {
        let np = nonempty(pl);
        assert forall|i: int| 0 <= i < np.len() implies plain_line(#[trigger] np[i]) by {
            assert(pl.contains(np[i]));
            let j = choose|j: int| 0 <= j < pl.len() && pl[j] == np[i];
            assert(pl[j] == parts[5] || pl[j] == parts[3]);
        }
        lemma_join_plain(np, " "@);
    }
    lemma_nonempty_from(four);
    assert forall|k: int| 0 <= k < xs.len() implies (#[trigger] xs[k]).len() > 0 && plain_line(xs[k]) by {
        assert(four.contains(xs[k]));
        let j = choose|j: int| 0 <= j < four.len() && four[j] == xs[k];
        assert(four[j] == parts[2] || four[j] == place || four[j] == parts[4] || four[j] == parts[6]);
    }
    lemma_text_lines_join(xs);
    let lines = indented_lines(join(xs, "\n"@));
    assert(lines == xs.map_values(|l: Seq<char>| "  "@ + l));
    let al = address_lines(label, parts);
    assert(al == seq![heading_text("Address"@, label)] + lines);
    assert forall|k: int| 0 <= k < 4 && four[k].len() > 0 implies al.contains("  "@ + four[k]) by {
        lemma_nonempty_keeps(four, k);
        let i = choose|i: int| 0 <= i < xs.len() && xs[i] == four[k];
        assert(al[i + 1] == lines[i]);
    }
    // the place line
    let p1 = seq![parts[5]];
    assert(pl.drop_last() =~= p1);
    assert(pl.last() == parts[3]);
    assert(p1.drop_last() =~= Seq::<Seq<char>>::empty());
    assert(p1.last() == parts[5]);
    assert(nonempty(Seq::<Seq<char>>::empty()) == Seq::<Seq<char>>::empty());
    if parts[5].len() > 0 || parts[3].len() > 0 {
        if parts[5].len() > 0 && parts[3].len() > 0 {
            assert(nonempty(p1) =~= p1);
            assert(nonempty(pl) =~= pl);
            assert(pl.len() == 2);
            assert(join(pl, " "@) == join(pl.drop_last(), " "@) + " "@ + pl.last());
            assert(join(p1, " "@) == parts[5]);
            assert(place == parts[5] + " "@ + parts[3]);
        } else if parts[5].len() > 0 {
            assert(nonempty(p1) =~= p1);
            assert(nonempty(pl) =~= seq![parts[5]]);
            assert(place == parts[5]);
        } else {
            assert(nonempty(p1) =~= Seq::<Seq<char>>::empty());
            assert(nonempty(pl) =~= seq![parts[3]]);
            assert(place == parts[3]);
        }
        assert(place.len() > 0);
        assert(four[1] == place);
        assert(al.contains("  "@ + four[1]));
        if parts[5].len() > 0 && parts[3].len() > 0 {
            assert("  "@ + place =~= "  "@ + parts[5] + " "@ + parts[3]);
        }
    }
    assert(four[0] == parts[2] && four[2] == parts[4] && four[3] == parts[6]);
}

/// Plain texts joined with a plain separator make a plain text.
proof fn lemma_join_plain(ps: Seq<Seq<char>>, sep: Seq<char>)
    requires
        plain_line(sep),
        forall|i: int| 0 <= i < ps.len() ==> plain_line(#[trigger] ps[i]),
    ensures
        plain_line(join(ps, sep)),
    decreases ps.len(),
{
    if ps.len() > 1 {
        let dl = ps.drop_last();
        assert forall|i: int| 0 <= i < dl.len() implies plain_line(#[trigger] dl[i]) by {
            assert(dl[i] == ps[i]);
        }
        lemma_join_plain(dl, sep);
        assert(plain_line(ps[ps.len() - 1]));
        let j = join(dl, sep);
        let r = join(ps, sep);
        assert(r == j + sep + ps.last());
        assert forall|k: int| 0 <= k < r.len() implies r[k] != '\n' && r[k] != '\r' by {
            if k < j.len() {
                assert(r[k] == j[k]);
            } else if k < j.len() + sep.len() {
                assert(r[k] == sep[k - j.len()]);
            } else {
                assert(r[k] == ps.last()[k - j.len() - sep.len()]);
            }
        }
    } else if ps.len() == 1 {
        assert(plain_line(ps[0]));
    }
}

/// The lines of some addresses.
pub open spec fn addresses_lines(ls: Seq<LineView>, adrs: Seq<LineView>) -> Seq<Seq<char>>
    decreases adrs.len(),
{
    if adrs.len() == 0 {
        Seq::empty()
    } else {
        addresses_lines(ls, adrs.drop_last()) + address_lines(
            label_of(ls, adrs.last()),
            address_parts(adrs.last().value),
        )
    }
}

/// How a birthday value shows: its date, or the value as it was.
pub open spec fn birthday_text(l: LineView) -> Seq<char> {
    match bday_date(l.value, l.params) {
        Some((y, m, d)) => shown_date(y, m, d),
        None => l.value,
    }
}

/// The lines of some URLs.
pub open spec fn url_lines(us: Seq<Seq<char>>) -> Seq<Seq<char>>
    decreases us.len(),
{
    if us.len() == 0 {
        Seq::empty()
    } else {
        url_lines(us.drop_last()) + field_line("URL"@, None, us.last())
    }
}

/// The lines of a card's organization: company and department.
pub open spec fn org_lines(ls: Seq<LineView>) -> Seq<Seq<char>> {
    match organization_of(ls) {
        Some((c, d)) => field_line("Company"@, None, c) + field_line("Department"@, None, d),
        None => Seq::empty(),
    }
}

/// The line of a card's birthday.
pub open spec fn bday_lines(ls: Seq<LineView>) -> Seq<Seq<char>> {
    match named_index(ls, "BDAY"@) {
        Some(i) => field_line("Birthday"@, None, birthday_text(ls[i])),
        None => Seq::empty(),
    }
}

/// The lines of a card's note, under a heading.
pub open spec fn note_lines(ls: Seq<LineView>) -> Seq<Seq<char>> {
    match named_index(ls, "NOTE"@) {
        Some(i) => seq!["Note"@] + indented_lines(unescape_text(ls[i].value)),
        None => Seq::empty(),
    }
}

/// The unescaped URLs of a card.
pub open spec fn card_urls(ls: Seq<LineView>) -> Seq<Seq<char>> {
    named_lines(ls, "URL"@).map_values(|l: LineView| unescape_text(l.value))
}

/// The detail lines of a card: its display name; company and department;
/// an empty line; phones, emails, addresses, the birthday and URLs; the
/// note under a heading of its own.
pub open spec fn details_of(ls: Seq<LineView>) -> Seq<Seq<char>> {
    seq![card_get(ls, Field::DisplayName)] + org_lines(ls) + seq![Seq::empty()] + labeled_lines(
        "Phone"@,
        labeled_values(ls, "TEL"@),
    ) + labeled_lines("Email"@, labeled_values(ls, "EMAIL"@)) + addresses_lines(
        ls,
        named_lines(ls, "ADR"@),
    ) + bday_lines(ls) + url_lines(card_urls(ls)) + note_lines(ls)
}

/// Appends the line of a value, if it is not empty.
fn push_field(out: &mut Vec<String>, kind: &str, label: Option<&str>, value: &str)
    ensures
        texts(final(out)@) == texts(old(out)@) + field_line(
            kind@,
            match label {
                Some(l) => Some(l@),
                None => None,
            },
            value@,
        ),
{
    let ghost before = texts(out@);
    match field(kind, label, value) {
        Some(s) => {
            let ghost sv = s@;
            out.push(s);
            assert(texts(out@) =~= before + seq![sv]);
        },
        None => {
            assert(texts(out@) =~= before + Seq::<Seq<char>>::empty());
        },
    }
}

/// Appends lines.
fn push_lines(out: &mut Vec<String>, more: Vec<String>)
    ensures
        texts(final(out)@) == texts(old(out)@) + texts(more@),
{
    let ghost before = texts(out@);
    let ghost added = texts(more@);
    let mut more = more;
    out.append(&mut more);
    assert(texts(out@) =~= before + added);
}

fn label_str(l: &Option<String>) -> (r: Option<&str>)
    ensures
        match r {
            Some(s) => opt_text(*l) == Some(s@),
            None => l is None,
        },
{
    match l {
        Some(s) => Some(s.as_str()),
        None => None,
    }
}

/// Appends the lines of labeled values of one kind.
fn push_labeled(out: &mut Vec<String>, kind: &str, vs: &Vec<Labeled<String>>)
    ensures
        texts(final(out)@) == texts(old(out)@) + labeled_lines(kind@, labeled_texts(vs@)),
{
    let ghost start = texts(out@);
    let ghost lv = labeled_texts(vs@);
    let mut i: usize = 0;
    while i < vs.len()
        invariant
            lv == labeled_texts(vs@),
            i <= vs@.len(),
            texts(out@) == start + labeled_lines(kind@, lv.take(i as int)),
        decreases vs.len() - i,
    {
        assert(lv.take(i + 1).drop_last() =~= lv.take(i as int));
        assert(lv[i as int] == (opt_text(vs@[i as int].label), vs@[i as int].value@));
        push_field(out, kind, label_str(&vs[i].label), vs[i].value.as_str());
        i += 1;
    }
    assert(lv.take(lv.len() as int) =~= lv);
}

/// Texts joined with a separator, the empty ones left out.
fn join_nonempty(parts: &Vec<Vec<char>>, sep: &[char]) -> (r: Vec<char>)
    ensures
        r@ == join(nonempty(char_seqs(parts@)), sep@),
{
    let ghost ps = char_seqs(parts@);
    let mut kept: Vec<Vec<char>> = Vec::new();
    let mut i: usize = 0;
    while i < parts.len()
        invariant
            i <= parts@.len(),
            ps == char_seqs(parts@),
            char_seqs(kept@) == nonempty(ps.take(i as int)),
        decreases parts.len() - i,
    {
        assert(ps.take(i + 1).drop_last() == ps.take(i as int));
        if parts[i].len() > 0 {
            let part = crate::text::copy_range(parts[i].as_slice(), 0, parts[i].len());
            assert(part@ =~= parts@[i as int]@);
            let ghost old = char_seqs(kept@);
            kept.push(part);
            assert(char_seqs(kept@) =~= old.push(ps[i as int]));
        }
        i += 1;
    }
    assert(ps.take(parts@.len() as int) == ps);
    join_texts(&kept, sep)
}

/// The lines of one address.
fn push_address(out: &mut Vec<String>, a: &Labeled<crate::card::Address>)
    ensures
        texts(final(out)@) == texts(old(out)@) + address_lines(opt_text(a.label), a.value@),
{
    let ghost parts = a.value@;
    let mut place_parts: Vec<Vec<char>> = Vec::new();
    place_parts.push(chars_of(a.value.postal_code.as_str()));
    place_parts.push(chars_of(a.value.city.as_str()));
    assert(char_seqs(place_parts@) =~= seq![parts[5], parts[3]]);
    let place = join_nonempty(&place_parts, &chars_of(" "));
    let mut line_parts: Vec<Vec<char>> = Vec::new();
    line_parts.push(chars_of(a.value.street.as_str()));
    line_parts.push(place);
    line_parts.push(chars_of(a.value.region.as_str()));
    line_parts.push(chars_of(a.value.country.as_str()));
    assert(char_seqs(line_parts@) =~= seq![
        parts[2],
        join(nonempty(seq![parts[5], parts[3]]), " "@),
        parts[4],
        parts[6],
    ]);
    let text = join_nonempty(&line_parts, &chars_of("\n"));
    let h = heading("Address", label_str(&a.label));
    let ghost before = texts(out@);
    let ghost hv = h@;
    out.push(h);
    assert(texts(out@) =~= before + seq![hv]);
    push_lines(out, indented(string_of(&text).as_str()));
}

fn push_org(out: &mut Vec<String>, card: &Card)
    ensures
        texts(final(out)@) == texts(old(out)@) + org_lines(card@),
{
    match card.organization() {
        Some(o) => {
            let ghost before = texts(out@);
            push_field(out, "Company", None, o.company.as_str());
            push_field(out, "Department", None, o.department.as_str());
            assert(texts(out@) =~= before + org_lines(card@));
        },
        None => {
            assert(texts(out@) =~= texts(out@) + org_lines(card@));
        },
    }
}

fn push_addresses(out: &mut Vec<String>, card: &Card)
    ensures
        texts(final(out)@) == texts(old(out)@) + addresses_lines(card@, named_lines(card@, "ADR"@)),
{
    let ghost ls = card@;
    let ghost start = texts(out@);
    let adrs = card.addresses();
    let ghost named = named_lines(ls, "ADR"@);
    let ghost av = adrs@.map_values(|a: Labeled<crate::card::Address>| (opt_text(a.label), a.value@));
    let ghost nv = named.map_values(|l: LineView| (label_of(ls, l), address_parts(l.value)));
    assert(av == nv);
    assert(adrs@.len() == named.len()) by {
        assert(av.len() == adrs@.len());
        assert(nv.len() == named.len());
    }
    let mut i: usize = 0;
    while i < adrs.len()
        invariant
            named == named_lines(ls, "ADR"@),
            av == adrs@.map_values(|a: Labeled<crate::card::Address>| (opt_text(a.label), a.value@)),
            nv == named.map_values(|l: LineView| (label_of(ls, l), address_parts(l.value))),
            av == nv,
            adrs@.len() == named.len(),
            i <= adrs@.len(),
            texts(out@) == start + addresses_lines(ls, named.take(i as int)),
        decreases adrs.len() - i,
    {
        assert(named.take(i + 1).drop_last() =~= named.take(i as int));
        assert(av[i as int] == nv[i as int]);
        push_address(out, &adrs[i]);
        assert(texts(out@) =~= start + addresses_lines(ls, named.take(i + 1)));
        i += 1;
    }
    assert(named.take(named.len() as int) =~= named);
}

fn push_birthday(out: &mut Vec<String>, card: &Card)
    ensures
        texts(final(out)@) == texts(old(out)@) + bday_lines(card@),
{
    match card.birthday() {
        Some(b) => {
            let t = b.to_text();
            push_field(out, "Birthday", None, t.as_str());
        },
        None => {
            assert(texts(out@) =~= texts(out@) + bday_lines(card@));
        },
    }
}

fn push_urls(out: &mut Vec<String>, card: &Card)
    ensures
        texts(final(out)@) == texts(old(out)@) + url_lines(card_urls(card@)),
{
    let ghost start = texts(out@);
    let urls = card.urls();
    let ghost us = card_urls(card@);
    let mut k: usize = 0;
    while k < urls.len()
        invariant
            texts(urls@) == us,
            k <= urls@.len(),
            texts(out@) == start + url_lines(us.take(k as int)),
        decreases urls.len() - k,
    {
        assert(us.take(k + 1).drop_last() =~= us.take(k as int));
        assert(us[k as int] == urls@[k as int]@);
        push_field(out, "URL", None, urls[k].as_str());
        assert(texts(out@) =~= start + url_lines(us.take(k + 1)));
        k += 1;
    }
    assert(us.take(us.len() as int) =~= us);
}

fn push_note(out: &mut Vec<String>, card: &Card)
    ensures
        texts(final(out)@) == texts(old(out)@) + note_lines(card@),
{
    let ghost before = texts(out@);
    match card.note() {
        Some(n) => {
            out.push(string_of(&chars_of("Note")));
            assert(texts(out@) =~= before + seq!["Note"@]);
            push_lines(out, indented(n.as_str()));
            assert(texts(out@) =~= before + note_lines(card@));
        },
        None => {
            assert(texts(out@) =~= before + note_lines(card@));
        },
    }
}

/// The detail lines of a card, the display name first.
pub fn details(card: &Card) -> (r: Vec<String>)
    ensures
        texts(r@) == details_of(card@),
{
    let ghost ls = card@;
    let mut out: Vec<String> = Vec::new();
    out.push(card.display_name());
    assert(texts(out@) =~= seq![card_get(ls, Field::DisplayName)]);
    push_org(&mut out, card);
    let ghost before_blank = texts(out@);
    out.push(String::new());
    assert(texts(out@) =~= before_blank + seq![Seq::<char>::empty()]);
    let phones = card.phones();
    push_labeled(&mut out, "Phone", &phones);
    let emails = card.emails();
    push_labeled(&mut out, "Email", &emails);
    push_addresses(&mut out, card);
    push_birthday(&mut out, card);
    push_urls(&mut out, card);
    push_note(&mut out, card);
    assert(texts(out@) =~= details_of(ls));
    out
}

/// The lines listing what was skipped: each file's path, then the reason,
/// indented.
pub open spec fn skipped_lines_of(s: Seq<(Seq<char>, Option<int>, crate::card::Defect)>) -> Seq<Seq<char>>
    decreases s.len(),
{
    if s.len() == 0 {
        Seq::empty()
    } else {
        skipped_lines_of(s.drop_last()) + seq![
            s.last().0,
            "  "@ + crate::card::defect_message(s.last().2),
        ]
    }
}

/// The lines listing what was skipped.
pub fn skipped_lines(skipped: &[Skipped]) -> (r: Vec<String>)
    ensures
        texts(r@) == skipped_lines_of(crate::vdir::skipped_entries(skipped@)),
{
    let ghost se = crate::vdir::skipped_entries(skipped@);
    let mut out: Vec<String> = Vec::new();
    let mut i: usize = 0;
    while i < skipped.len()
        invariant
            se == crate::vdir::skipped_entries(skipped@),
            i <= skipped@.len(),
            texts(out@) == skipped_lines_of(se.take(i as int)),
        decreases skipped.len() - i,
    {
        assert(se.take(i + 1).drop_last() =~= se.take(i as int));
        let s = &skipped[i];
        let ghost before = texts(out@);
        let p = s.path.clone();
        let mut reason = chars_of("  ");
        push_all(&mut reason, &chars_of(s.defect.message()));
        let ghost pv = p@;
        let r = string_of(&reason);
        let ghost rv = r@;
        out.push(p);
        out.push(r);
        assert(texts(out@) =~= before + seq![pv, rv]);
        i += 1;
    }
    assert(se.take(se.len() as int) =~= se);
    out
}

} // verus!
