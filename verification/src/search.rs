//! Ranking cards against a search query: fuzzy matching of names,
//! organization and email addresses, with phone numbers matched by digits.
use crate::card::line::LineView;
use crate::card::{card_get, labeled_values, organization_of, Card, Field};
use crate::order::{key_view, keys_view, sorted_order, stable_order};
use crate::text::{chars_of, lowercase, to_lowercase};
use nucleo_matcher::pattern::{AtomKind, CaseMatching, Normalization, Pattern};
use nucleo_matcher::{Config, Matcher, Utf32Str};
use vstd::prelude::*;

verus! {

/// The score that nucleo's fuzzy matcher gives `text` for `query` (words
/// matched one by one, case ignored, smart normalization, default
/// configuration); `None` when some word of the query does not match.
pub uninterp spec fn fuzzy_score(query: Seq<char>, text: Seq<char>) -> Option<u32>;

/// Scores `text` against `query` with nucleo: `Pattern::new` with
/// `CaseMatching::Ignore`, `Normalization::Smart` and `AtomKind::Fuzzy`,
/// then `Pattern::score` with a `Matcher` of the default configuration. The
/// result depends on the two texts alone; what it is, is not stated here.
#[verifier::external_body]
fn fuzzy(query: &str, text: &str) -> (r: Option<u32>)
    ensures
        r == fuzzy_score(query@, text@),
{
    let pattern = Pattern::new(query, CaseMatching::Ignore, Normalization::Smart, AtomKind::Fuzzy);
    let mut matcher = Matcher::new(Config::DEFAULT);
    let mut buf = Vec::new();
    pattern.score(Utf32Str::new(text, &mut buf), &mut matcher)
}

/// The names a card is found by: the display name, and the company and
/// department when there is an organization.
pub open spec fn name_texts(ls: Seq<LineView>) -> Seq<Seq<char>> {
    seq![card_get(ls, Field::DisplayName)] + match organization_of(ls) {
        Some((c, d)) => seq![c, d],
        None => Seq::empty(),
    }
}

/// The texts a query is matched against: the names of the card, followed,
/// when `email` holds, by every email address.
pub open spec fn card_texts(ls: Seq<LineView>, email: bool) -> Seq<Seq<char>> {
    if email {
        name_texts(ls) + labeled_values(ls, "EMAIL"@).map_values(|p: (Option<Seq<char>>, Seq<char>)| p.1)
    } else {
        name_texts(ls)
    }
}

/// The best of some scores, if any.
pub open spec fn best(s: Seq<Option<u32>>) -> Option<u32>
    decreases s.len(),
{
    if s.len() == 0 {
        None
    } else {
        match (best(s.drop_last()), s.last()) {
            (Some(a), Some(b)) => Some(if a < b { b } else { a }),
            (Some(a), None) => Some(a),
            (None, b) => b,
        }
    }
}

/// How well a card matches, as a number that orders matches: a phone
/// match ranks below every fuzzy match, which rank by their best score.
pub open spec fn hit_of(scores: Seq<Option<u32>>, phone: bool) -> Option<u64> {
    match best(scores) {
        Some(m) => Some((m + 1) as u64),
        None => if phone {
            Some(0)
        } else {
            None
        },
    }
}

/// The match of a card from its fuzzy scores and whether a phone number
/// matched.
pub fn best_hit(scores: &[Option<u32>], phone: bool) -> (r: Option<u64>)
    ensures
        r == hit_of(scores@, phone),
{
    let mut b: Option<u32> = None;
    let mut i: usize = 0;
    while i < scores.len()
        invariant
            i <= scores@.len(),
            b == best(scores@.take(i as int)),
        decreases scores.len() - i,
    {
        assert(scores@.take(i + 1).drop_last() == scores@.take(i as int));
        b = match (b, scores[i]) {
            (Some(a), Some(c)) => Some(if a < c { c } else { a }),
            (Some(a), None) => Some(a),
            (None, c) => c,
        };
        i += 1;
    }
    assert(scores@.take(scores@.len() as int) == scores@);
    match b {
        Some(m) => Some(m as u64 + 1),
        None => if phone {
            Some(0)
        } else {
            None
        },
    }
}

/// Whether match `i` ranks before match `j`: a better match first, equal
/// matches in their original order.
pub open spec fn ranks_before(hits: Seq<Option<u64>>, i: int, j: int) -> bool {
    hits[i]->0 > hits[j]->0 || (hits[i]->0 == hits[j]->0 && i < j)
}

/// `r` lists the positions of all matches, each once, best first and equal
/// matches in their original order.
pub open spec fn ranked(hits: Seq<Option<u64>>, r: Seq<usize>) -> bool {
    &&& forall|k: int| 0 <= k < r.len() ==> (#[trigger] r[k]) < hits.len() && hits[r[k] as int] is Some
    &&& forall|i: int| 0 <= i < hits.len() && (#[trigger] hits[i]) is Some ==> r.contains(i as usize)
    &&& forall|a: int, b: int| 0 <= a < b < r.len() ==> ranks_before(hits, #[trigger] r[a] as int, #[trigger] r[b] as int)
}

fn at_least(h: Option<u64>, key: u64) -> (b: bool)
    ensures
        b == (h is Some && h->0 >= key),
{
    match h {
        Some(k) => k >= key,
        None => false,
    }
}

/// The positions of the matches, best first; equal matches keep their order.
pub fn order_hits(hits: &[Option<u64>]) -> (r: Vec<usize>)
    ensures
        ranked(hits@, r@),
{
    let mut r: Vec<usize> = Vec::new();
    let mut i: usize = 0;
    while i < hits.len()
        invariant
            i <= hits@.len(),
            forall|k: int| 0 <= k < r@.len() ==> (#[trigger] r@[k]) < i && hits@[r@[k] as int] is Some,
            forall|j: int| 0 <= j < i && (#[trigger] hits@[j]) is Some ==> r@.contains(j as usize),
            forall|a: int, b: int|
                0 <= a < b < r@.len() ==> ranks_before(hits@, #[trigger] r@[a] as int, #[trigger] r@[b] as int),
        decreases hits.len() - i,
    {
        if let Some(key) = hits[i] {
            let mut p: usize = 0;
            while p < r.len() && at_least(hits[r[p]], key)
                invariant
                    p <= r@.len(),
                    i < hits@.len(),
                    forall|k: int| 0 <= k < r@.len() ==> (#[trigger] r@[k]) < i && hits@[r@[k] as int] is Some,
                    forall|a: int| 0 <= a < p ==> hits@[(#[trigger] r@[a]) as int]->0 >= key,
                decreases r.len() - p,
            {
                p += 1;
            }
            let ghost old_r = r@;
            proof {
                if p < old_r.len() {
                    assert(hits@[old_r[p as int] as int]->0 < key);
                }
            }
            r.insert(p, i);
            proof {
                old_r.insert_ensures(p as int, i);
                assert forall|k: int| 0 <= k < r@.len() implies (#[trigger] r@[k]) < i + 1 && hits@[r@[k] as int] is Some by {
                    if k < p {
                        assert(r@[k] == old_r[k]);
                    } else if k > p {
                        assert(r@[k] == old_r[k - 1]);
                    }
                }
                assert forall|j: int| 0 <= j < i + 1 && (#[trigger] hits@[j]) is Some implies r@.contains(j as usize) by {
                    if j == i {
                        assert(r@[p as int] == i);
                    } else {
                        assert(old_r.contains(j as usize));
                        let w = choose|w: int| 0 <= w < old_r.len() && old_r[w] == j as usize;
                        if w < p {
                            assert(r@[w] == j as usize);
                        } else {
                            assert(r@[w + 1] == j as usize);
                        }
                    }
                }
                assert forall|a: int, b: int| 0 <= a < b < r@.len() implies ranks_before(
                    hits@,
                    #[trigger] r@[a] as int,
                    #[trigger] r@[b] as int,
                ) by {
                    if b < p {
                        assert(r@[a] == old_r[a] && r@[b] == old_r[b]);
                    } else if b == p {
                        assert(r@[a] == old_r[a]);
                        assert(hits@[old_r[a] as int]->0 >= key);
                    } else if a == p {
                        assert(r@[b] == old_r[b - 1]);
                        assert(hits@[old_r[p as int] as int]->0 < key);
                        if b - 1 > p {
                            assert(ranks_before(hits@, old_r[p as int] as int, old_r[b - 1] as int));
                        }
                    } else if a < p {
                        assert(r@[a] == old_r[a] && r@[b] == old_r[b - 1]);
                    } else {
                        assert(r@[a] == old_r[a - 1] && r@[b] == old_r[b - 1]);
                    }
                }
            }
        }
        i += 1;
    }
    r
}

/// Whether a character is set between the digits of a written phone number.
pub open spec fn is_phone_punct(c: char) -> bool {
    c == ' ' || c == '+' || c == '-' || c == '(' || c == ')'
}

/// Whether a character is an ASCII digit.
pub open spec fn is_digit(c: char) -> bool {
    '0' <= c && c <= '9'
}

/// A text without the punctuation of phone numbers.
pub open spec fn strip_punct(s: Seq<char>) -> Seq<char>
    decreases s.len(),
{
    if s.len() == 0 {
        s
    } else if is_phone_punct(s.last()) {
        strip_punct(s.drop_last())
    } else {
        strip_punct(s.drop_last()).push(s.last())
    }
}

/// The ASCII digits of a text, in order.
pub open spec fn only_digits(s: Seq<char>) -> Seq<char>
    decreases s.len(),
{
    if s.len() == 0 {
        s
    } else if is_digit(s.last()) {
        only_digits(s.drop_last()).push(s.last())
    } else {
        only_digits(s.drop_last())
    }
}

/// The digits a query stands for when it reads as a phone number: what is
/// left without phone punctuation, when that is one or more digits.
pub open spec fn phone_query(q: Seq<char>) -> Option<Seq<char>> {
    let d = strip_punct(q);
    if d.len() > 0 && forall|i: int| 0 <= i < d.len() ==> is_digit(#[trigger] d[i]) {
        Some(d)
    } else {
        None
    }
}

/// Whether `t` occurs in `s` at position `i`.
pub open spec fn occurs_at(s: Seq<char>, t: Seq<char>, i: int) -> bool {
    0 <= i && i + t.len() <= s.len() && s.subrange(i, i + t.len()) == t
}

/// Whether `t` occurs in `s`.
pub open spec fn occurs(s: Seq<char>, t: Seq<char>) -> bool {
    exists|i: int| occurs_at(s, t, i)
}

/// Whether one of the card's phone numbers, read as its digits alone,
/// holds the digits `d`.
pub open spec fn has_phone_spec(ls: Seq<LineView>, d: Seq<char>) -> bool {
    exists|k: int|
        0 <= k < labeled_values(ls, "TEL"@).len() && occurs(
            only_digits(#[trigger] labeled_values(ls, "TEL"@)[k].1),
            d,
        )
}

/// Whether the card matches the query as a phone number.
pub open spec fn phone_match(ls: Seq<LineView>, q: Seq<char>) -> bool {
    match phone_query(q) {
        Some(d) => has_phone_spec(ls, d),
        None => false,
    }
}

/// How well a card matches a query, its email addresses searched or not.
pub open spec fn card_hit(ls: Seq<LineView>, q: Seq<char>, email: bool) -> Option<u64> {
    hit_of(card_texts(ls, email).map_values(|t: Seq<char>| fuzzy_score(q, t)), phone_match(ls, q))
}

/// How well each card matches a query.
pub open spec fn card_hits(cards: Seq<Seq<LineView>>, q: Seq<char>, email: bool) -> Seq<Option<u64>> {
    cards.map_values(|ls: Seq<LineView>| card_hit(ls, q, email))
}

/// The lines of some cards.
pub open spec fn card_views(cards: Seq<&Card>) -> Seq<Seq<LineView>> {
    cards.map_values(|c: &Card| c@)
}

/// `r` is the ranking of `cards` for query `q`, email addresses searched
/// when `email` holds: every position in order for an empty query, else the
/// positions of the matches, best first.
pub open spec fn rank_in(cards: Seq<Seq<LineView>>, q: Seq<char>, email: bool, r: Seq<usize>) -> bool {
    if q.len() == 0 {
        r == Seq::new(cards.len(), |i: int| i as usize)
    } else {
        ranked(card_hits(cards, q, email), r)
    }
}

/// `r` is the ranking of `cards` for query `q`, names and email addresses
/// searched.
pub open spec fn rank_of(cards: Seq<Seq<LineView>>, q: Seq<char>, r: Seq<usize>) -> bool {
    rank_in(cards, q, true, r)
}

/// The one ranking of some matches: their positions, best first, equal
/// matches in their original order.
pub open spec fn ranking(hits: Seq<Option<u64>>) -> Seq<usize> {
    choose|r: Seq<usize>| ranked(hits, r)
}

/// Two sequences ordered by `ranks_before` that hold the same positions
/// are equal.
proof fn lemma_sorted_unique(hits: Seq<Option<u64>>, r1: Seq<usize>, r2: Seq<usize>)
    requires
        forall|a: int, b: int| 0 <= a < b < r1.len() ==> ranks_before(hits, #[trigger] r1[a] as int, #[trigger] r1[b] as int),
        forall|a: int, b: int| 0 <= a < b < r2.len() ==> ranks_before(hits, #[trigger] r2[a] as int, #[trigger] r2[b] as int),
        forall|x: usize| r1.contains(x) <==> r2.contains(x),
    ensures
        r1 == r2,
    decreases r1.len(),
{
    if r1.len() == 0 {
        if r2.len() > 0 {
            assert(r2.contains(r2[0]));
        }
        assert(r1 =~= r2);
    } else {
        assert(r1.contains(r1[0]));
        assert(r2.len() > 0);
        assert(r2.contains(r2[0]));
        if r1[0] != r2[0] {
            let w = choose|w: int| 0 <= w < r2.len() && r2[w] == r1[0];
            let v = choose|v: int| 0 <= v < r1.len() && r1[v] == r2[0];
            assert(w > 0 && v > 0);
            assert(ranks_before(hits, r2[0] as int, r2[w] as int));
            assert(ranks_before(hits, r1[0] as int, r1[v] as int));
        }
        let t1 = r1.drop_first();
        let t2 = r2.drop_first();
        assert forall|x: usize| t1.contains(x) <==> t2.contains(x) by {
            if t1.contains(x) {
                let k = choose|k: int| 0 <= k < t1.len() && t1[k] == x;
                assert(r1[k + 1] == x);
                assert(ranks_before(hits, r1[0] as int, r1[k + 1] as int));
                assert(r2.contains(x));
                let j = choose|j: int| 0 <= j < r2.len() && r2[j] == x;
                assert(j != 0);
                assert(t2[j - 1] == x);
            }
            if t2.contains(x) {
                let k = choose|k: int| 0 <= k < t2.len() && t2[k] == x;
                assert(r2[k + 1] == x);
                assert(ranks_before(hits, r2[0] as int, r2[k + 1] as int));
                assert(r1.contains(x));
                let j = choose|j: int| 0 <= j < r1.len() && r1[j] == x;
                assert(j != 0);
                assert(t1[j - 1] == x);
            }
        }
        assert forall|a: int, b: int| 0 <= a < b < t1.len() implies ranks_before(hits, #[trigger] t1[a] as int, #[trigger] t1[b] as int) by {
            assert(t1[a] == r1[a + 1] && t1[b] == r1[b + 1]);
        }
        assert forall|a: int, b: int| 0 <= a < b < t2.len() implies ranks_before(hits, #[trigger] t2[a] as int, #[trigger] t2[b] as int) by {
            assert(t2[a] == r2[a + 1] && t2[b] == r2[b + 1]);
        }
        lemma_sorted_unique(hits, t1, t2);
        assert(r1[0] == r2[0]);
        assert forall|k: int| 0 <= k < r1.len() implies r1[k] == r2[k] by {
            if k > 0 {
                assert(r1[k] == t1[k - 1] && r2[k] == t2[k - 1]);
            }
        }
        assert(r1 =~= r2);
    }
}

/// A ranking of some matches is the one ranking of them.
pub proof fn lemma_ranked_is_ranking(hits: Seq<Option<u64>>, r: Seq<usize>)
    requires
        ranked(hits, r),
    ensures
        r == ranking(hits),
{
    let c = ranking(hits);
    assert(ranked(hits, c));
    assert forall|x: usize| r.contains(x) <==> c.contains(x) by {
        if r.contains(x) {
            let k = choose|k: int| 0 <= k < r.len() && r[k] == x;
            assert(hits[r[k] as int] is Some);
        }
        if c.contains(x) {
            let k = choose|k: int| 0 <= k < c.len() && c[k] == x;
            assert(hits[c[k] as int] is Some);
        }
    }
    lemma_sorted_unique(hits, r, c);
}

/// The best of some scores exists when one of them does.
proof fn lemma_best_some(s: Seq<Option<u32>>, k: int)
    requires
        0 <= k < s.len(),
        s[k] is Some,
    ensures
        best(s) is Some,
    decreases s.len(),
{
    if k < s.len() - 1 {
        lemma_best_some(s.drop_last(), k);
    }
}

/// Whether `t` is one of the texts a card is found by: its display name,
/// its company or department, or, when email addresses are searched, one
/// of them.
pub open spec fn finds_by(ls: Seq<LineView>, email: bool, t: Seq<char>) -> bool {
    ||| t == card_get(ls, Field::DisplayName)
    ||| match organization_of(ls) {
        Some((c, d)) => t == c || t == d,
        None => false,
    }
    ||| email && exists|k: int|
        0 <= k < labeled_values(ls, "EMAIL"@).len() && (#[trigger] labeled_values(ls, "EMAIL"@)[k]).1 == t
}

/// A card is found by each of its display name, company, department and
/// (where searched) email addresses: when the query matches one of them,
/// the card is a hit, and ranks as a fuzzy match, above every card found
/// only by a phone number.
pub proof fn lemma_found_by_texts(ls: Seq<LineView>, q: Seq<char>, email: bool, t: Seq<char>)
    requires
        finds_by(ls, email, t),
        fuzzy_score(q, t) is Some,
    ensures
        card_hit(ls, q, email) is Some,
        card_hit(ls, q, email)->0 >= 1,
{
    let ts = card_texts(ls, email);
    let scores = ts.map_values(|x: Seq<char>| fuzzy_score(q, x));
    let nt = name_texts(ls);
    let k: int = if t == card_get(ls, Field::DisplayName) {
        0
    } else {
        match organization_of(ls) {
            Some((c, d)) => if t == c {
                1
            } else if t == d {
                2
            } else {
                let e = choose|e: int|
                    0 <= e < labeled_values(ls, "EMAIL"@).len() && (#[trigger] labeled_values(ls, "EMAIL"@)[e]).1 == t;
                nt.len() + e
            },
            None => {
                let e = choose|e: int|
                    0 <= e < labeled_values(ls, "EMAIL"@).len() && (#[trigger] labeled_values(ls, "EMAIL"@)[e]).1 == t;
                nt.len() + e
            },
        }
    };
    assert(0 <= k < ts.len() && ts[k] == t);
    assert(scores[k] == fuzzy_score(q, t));
    lemma_best_some(scores, k);
}

/// A query that is not empty ranks every card it finds by one of its texts.
pub proof fn lemma_rank_finds(
    cards: Seq<Seq<LineView>>,
    q: Seq<char>,
    email: bool,
    r: Seq<usize>,
    k: int,
    t: Seq<char>,
)
    requires
        rank_in(cards, q, email, r),
        q.len() > 0,
        0 <= k < cards.len(),
        finds_by(cards[k], email, t),
        fuzzy_score(q, t) is Some,
    ensures
        r.contains(k as usize),
{
    lemma_found_by_texts(cards[k], q, email, t);
    assert(card_hits(cards, q, email)[k] == card_hit(cards[k], q, email));
}

/// The texts of a card that a query is matched against.
fn texts(card: &Card, email: bool) -> (r: Vec<String>)
    ensures
        r@.map_values(|s: String| s@) == card_texts(card@, email),
{
    let mut r: Vec<String> = Vec::new();
    r.push(card.display_name());
    match card.organization() {
        Some(o) => {
            r.push(o.company);
            r.push(o.department);
        },
        None => {},
    }
    let ghost head = r@.map_values(|s: String| s@);
    assert(head =~= name_texts(card@));
    if !email {
        return r;
    }
    let emails = card.emails();
    let ghost vals = labeled_values(card@, "EMAIL"@).map_values(|p: (Option<Seq<char>>, Seq<char>)| p.1);
    let mut i: usize = 0;
    while i < emails.len()
        invariant
            i <= emails@.len(),
            crate::card::labeled_texts(emails@) == labeled_values(card@, "EMAIL"@),
            vals == labeled_values(card@, "EMAIL"@).map_values(|p: (Option<Seq<char>>, Seq<char>)| p.1),
            r@.map_values(|s: String| s@) == head + vals.take(i as int),
        decreases emails.len() - i,
    {
        assert(crate::card::labeled_texts(emails@)[i as int].1 == emails@[i as int].value@);
        assert(vals[i as int] == emails@[i as int].value@);
        let v = emails[i].value.clone();
        assert(v@ == vals[i as int]);
        let ghost before = r@;
        r.push(v);
        assert(r@ == before.push(v));
        assert(vals.take(i + 1) == vals.take(i as int).push(vals[i as int]));
        assert(r@.map_values(|s: String| s@) =~= before.map_values(|s: String| s@).push(v@));
        assert(r@.map_values(|s: String| s@) =~= head + vals.take(i + 1));
        i += 1;
    }
    assert(vals.take(vals.len() as int) == vals);
    r
}

/// The query without phone punctuation, if what is left is one or more
/// ASCII digits.
pub(crate) fn phone_digits(query: &[char]) -> (r: Option<Vec<char>>)
    ensures
        match r {
            Some(d) => phone_query(query@) == Some(d@),
            None => phone_query(query@) is None,
        },
{
    let mut d: Vec<char> = Vec::new();
    let mut i: usize = 0;
    while i < query.len()
        invariant
            i <= query@.len(),
            d@ == strip_punct(query@.take(i as int)),
        decreases query.len() - i,
    {
        assert(query@.take(i + 1).drop_last() == query@.take(i as int));
        let c = query[i];
        if !(c == ' ' || c == '+' || c == '-' || c == '(' || c == ')') {
            d.push(c);
        }
        i += 1;
    }
    assert(query@.take(query@.len() as int) == query@);
    if d.len() == 0 {
        return None;
    }
    let mut j: usize = 0;
    while j < d.len()
        invariant
            d@ == strip_punct(query@),
            j <= d@.len(),
            forall|k: int| 0 <= k < j ==> is_digit(#[trigger] d@[k]),
        decreases d.len() - j,
    {
        if !(d[j] >= '0' && d[j] <= '9') {
            assert(!is_digit(d@[j as int]));
            return None;
        }
        j += 1;
    }
    Some(d)
}

/// The ASCII digits of a text.
fn digits_of(s: &[char]) -> (r: Vec<char>)
    ensures
        r@ == only_digits(s@),
{
    let mut d: Vec<char> = Vec::new();
    let mut i: usize = 0;
    while i < s.len()
        invariant
            i <= s@.len(),
            d@ == only_digits(s@.take(i as int)),
        decreases s.len() - i,
    {
        assert(s@.take(i + 1).drop_last() == s@.take(i as int));
        if s[i] >= '0' && s[i] <= '9' {
            d.push(s[i]);
        }
        i += 1;
    }
    assert(s@.take(s@.len() as int) == s@);
    d
}

fn occurs_here(s: &[char], t: &[char], i: usize) -> (r: bool)
    requires
        i + t@.len() <= s@.len(),
    ensures
        r == occurs_at(s@, t@, i as int),
{
    let n = s.len();
    let mut k: usize = 0;
    while k < t.len()
        invariant
            i + t@.len() <= s@.len(),
            n == s@.len(),
            k <= t@.len(),
            forall|m: int| 0 <= m < k ==> s@[i + m] == t@[m],
        decreases t.len() - k,
    {
        if s[i + k] != t[k] {
            assert(s@.subrange(i as int, i + t@.len())[k as int] != t@[k as int]);
            return false;
        }
        k += 1;
    }
    assert(s@.subrange(i as int, i + t@.len()) =~= t@);
    true
}

/// Whether `t` occurs in `s`.
pub fn occurs_in(s: &[char], t: &[char]) -> (r: bool)
    ensures
        r == occurs(s@, t@),
{
    if t.len() > s.len() {
        assert forall|i: int| !occurs_at(s@, t@, i) by {}
        return false;
    }
    let last = s.len() - t.len();
    let mut i: usize = 0;
    loop
        invariant
            i <= last,
            last + t@.len() == s@.len(),
            forall|j: int| 0 <= j < i ==> !occurs_at(s@, t@, j),
        decreases last - i,
    {
        if occurs_here(s, t, i) {
            return true;
        }
        if i == last {
            assert forall|j: int| !occurs_at(s@, t@, j) by {
                if 0 <= j && j + t@.len() <= s@.len() && j != i {
                    assert(j < i);
                }
            }
            return false;
        }
        i += 1;
    }
}

/// Whether one of the card's phone numbers holds the digits `digits`.
pub(crate) fn has_phone(card: &Card, digits: &[char]) -> (r: bool)
    ensures
        r == has_phone_spec(card@, digits@),
{
    let phones = card.phones();
    let ghost tels = labeled_values(card@, "TEL"@);
    let mut i: usize = 0;
    while i < phones.len()
        invariant
            i <= phones@.len(),
            crate::card::labeled_texts(phones@) == tels,
            tels == labeled_values(card@, "TEL"@),
            forall|k: int| 0 <= k < i ==> !occurs(only_digits(#[trigger] tels[k].1), digits@),
        decreases phones.len() - i,
    {
        assert(tels[i as int].1 == phones@[i as int].value@);
        let v = chars_of(phones[i].value.as_str());
        let d = digits_of(&v);
        if occurs_in(&d, digits) {
            return true;
        }
        i += 1;
    }
    false
}

/// How well one card matches a query whose phone reading is `digits`.
fn hit(card: &Card, query: &str, digits: &Option<Vec<char>>, email: bool) -> (r: Option<u64>)
    requires
        match digits {
            Some(d) => phone_query(query@) == Some(d@),
            None => phone_query(query@) is None,
        },
    ensures
        r == card_hit(card@, query@, email),
{
    let texts = texts(card, email);
    let ghost ts = card_texts(card@, email);
    let mut scores: Vec<Option<u32>> = Vec::new();
    let mut i: usize = 0;
    while i < texts.len()
        invariant
            i <= texts@.len(),
            texts@.map_values(|s: String| s@) == ts,
            scores@ == ts.take(i as int).map_values(|t: Seq<char>| fuzzy_score(query@, t)),
        decreases texts.len() - i,
    {
        assert(ts[i as int] == texts@[i as int]@);
        scores.push(fuzzy(query, texts[i].as_str()));
        assert(scores@ =~= ts.take(i + 1).map_values(|t: Seq<char>| fuzzy_score(query@, t)));
        i += 1;
    }
    assert(ts.take(ts.len() as int) == ts);
    let fuzzy_hit = best_hit(&scores, false);
    if fuzzy_hit.is_some() {
        return fuzzy_hit;
    }
    let phone = match digits {
        Some(d) => has_phone(card, d),
        None => false,
    };
    best_hit(&scores, phone)
}

/// The positions of the cards that match `query`, best match first and
/// equal matches in list order; every card, in order, for an empty query.
pub fn rank(cards: &[&Card], query: &str) -> (r: Vec<usize>)
    ensures
        rank_of(card_views(cards@), query@, r@),
{
    rank_by(cards, query, true)
}

/// The positions of the cards that match `query`, their email addresses
/// searched when `email` holds, best match first and equal matches in list
/// order; every card, in order, for an empty query.
pub fn rank_by(cards: &[&Card], query: &str, email: bool) -> (r: Vec<usize>)
    ensures
        rank_in(card_views(cards@), query@, email, r@),
{
    if query.is_empty() {
        let mut all: Vec<usize> = Vec::new();
        let mut i: usize = 0;
        while i < cards.len()
            invariant
                i <= cards@.len(),
                all@ == Seq::new(i as nat, |k: int| k as usize),
            decreases cards.len() - i,
        {
            all.push(i);
            assert(all@ =~= Seq::new((i + 1) as nat, |k: int| k as usize));
            i += 1;
        }
        assert(all@ =~= Seq::new(card_views(cards@).len(), |k: int| k as usize));
        return all;
    }
    let q = chars_of(query);
    let digits = phone_digits(&q);
    let mut hits: Vec<Option<u64>> = Vec::new();
    let mut i: usize = 0;
    while i < cards.len()
        invariant
            i <= cards@.len(),
            q@ == query@,
            match digits {
                Some(d) => phone_query(query@) == Some(d@),
                None => phone_query(query@) is None,
            },
            hits@ == card_hits(card_views(cards@), query@, email).take(i as int),
        decreases cards.len() - i,
    {
        hits.push(hit(cards[i], query, &digits, email));
        assert(hits@ =~= card_hits(card_views(cards@), query@, email).take(i + 1));
        i += 1;
    }
    assert(hits@ =~= card_hits(card_views(cards@), query@, email));
    order_hits(&hits)
}

/// The key the card list is sorted by: lowercased family name, given name
/// and display name; a card without family and given name sorts by its
/// lowercased display name alone.
pub open spec fn sort_key_of(ls: Seq<LineView>) -> (Seq<char>, Seq<char>, Seq<char>) {
    let family = card_get(ls, Field::Family);
    let given = card_get(ls, Field::Given);
    let display_name = lowercase(card_get(ls, Field::DisplayName));
    if family.len() == 0 && given.len() == 0 {
        (display_name, Seq::empty(), Seq::empty())
    } else {
        (lowercase(family), lowercase(given), display_name)
    }
}

/// The key the card list is sorted by.
pub fn sort_key(card: &Card) -> (r: (String, String, String))
    ensures
        (r.0@, r.1@, r.2@) == sort_key_of(card@),
{
    let (family, given) = card.structured_name();
    let display_name = to_lowercase(card.display_name().as_str());
    if family.as_str().is_empty() && given.as_str().is_empty() {
        return (display_name, String::new(), String::new());
    }
    (to_lowercase(family.as_str()), to_lowercase(given.as_str()), display_name)
}

/// A sort key as a sequence of texts.
pub open spec fn key_texts(k: (Seq<char>, Seq<char>, Seq<char>)) -> Seq<Seq<char>> {
    seq![k.0, k.1, k.2]
}

/// The sort keys of some cards.
pub open spec fn sort_keys(cards: Seq<Seq<LineView>>) -> Seq<Seq<Seq<char>>> {
    cards.map_values(|ls: Seq<LineView>| key_texts(sort_key_of(ls)))
}

/// The positions of the cards in list order: sorted by their sort keys,
/// cards with equal keys in their given order.
pub fn sorted_positions(cards: &[&Card]) -> (r: Vec<usize>)
    ensures
        sorted_order(sort_keys(card_views(cards@)), r@),
{
    let mut keys: Vec<Vec<Vec<char>>> = Vec::new();
    let mut i: usize = 0;
    while i < cards.len()
        invariant
            i <= cards@.len(),
            keys_view(keys@) == sort_keys(card_views(cards@)).take(i as int),
            forall|x: int| 0 <= x < keys@.len() ==> (#[trigger] keys@[x])@.len() == 3,
        decreases cards.len() - i,
    {
        let (a, b, c) = sort_key(cards[i]);
        let mut key: Vec<Vec<char>> = Vec::new();
        key.push(chars_of(a.as_str()));
        key.push(chars_of(b.as_str()));
        key.push(chars_of(c.as_str()));
        assert(key_view(key) =~= key_texts(sort_key_of(cards@[i as int]@)));
        let ghost before = keys_view(keys@);
        keys.push(key);
        assert(keys_view(keys@) =~= before.push(key_view(key)));
        assert(keys_view(keys@) =~= sort_keys(card_views(cards@)).take(i + 1));
        i += 1;
    }
    assert(keys_view(keys@) =~= sort_keys(card_views(cards@)));
    stable_order(&keys)
}

} // verus!
