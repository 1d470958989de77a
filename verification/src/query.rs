//! Email address completion for mail clients: one line per address of the
//! cards that match a query, as `address<TAB>name<TAB>label`.
use crate::card::line::{opt_text, LineView};
use crate::card::{card_get, labeled_texts, labeled_values, Card, Field};
use crate::order::sorted_order;
use crate::search::{card_views, rank, rank_of, sort_keys, sorted_positions};
use crate::text::{chars_of, push_all, string_of};
use crate::vdir::AddressBook;
use vstd::prelude::*;

verus! {

/// A text with tabs, carriage returns and line feeds turned into spaces, so
/// that it fits in one column of one line.
pub open spec fn field_text(s: Seq<char>) -> Seq<char> {
    s.map_values(|c: char| if c == '\t' || c == '\r' || c == '\n' { ' ' } else { c })
}

/// The completion line of one address.
pub open spec fn email_line(value: Seq<char>, name: Seq<char>, label: Option<Seq<char>>) -> Seq<char> {
    field_text(value) + seq!['\t'] + field_text(name) + seq!['\t'] + field_text(
        match label {
            Some(l) => l,
            None => Seq::empty(),
        },
    )
}

/// The completion lines of one card: one per email address.
pub open spec fn card_lines(ls: Seq<LineView>) -> Seq<Seq<char>> {
    labeled_values(ls, "EMAIL"@).map_values(
        |p: (Option<Seq<char>>, Seq<char>)| email_line(p.1, card_get(ls, Field::DisplayName), p.0),
    )
}

/// The completion lines of the cards at positions `r`, in that order.
pub open spec fn query_lines(cards: Seq<Seq<LineView>>, r: Seq<usize>) -> Seq<Seq<char>>
    decreases r.len(),
{
    if r.len() == 0 {
        Seq::empty()
    } else {
        query_lines(cards, r.drop_last()) + card_lines(cards[r.last() as int])
    }
}

/// The cards of an address book, in the order it holds them.
pub open spec fn book_views(book: AddressBook) -> Seq<Seq<LineView>> {
    book.cards@.map_values(|e: (crate::vdir::Location, Card)| e.1@)
}

/// `out` holds the completion lines for query `q`: the cards sorted as the
/// list shows them, ranked against the query, each card's addresses in
/// order.
pub open spec fn lines_of(cards: Seq<Seq<LineView>>, q: Seq<char>, out: Seq<Seq<char>>) -> bool {
    exists|ord: Seq<usize>, rk: Seq<usize>|
        #![trigger sorted_order(sort_keys(cards), ord), rank_of(pick(cards, ord), q, rk)]
        {
            &&& sorted_order(sort_keys(cards), ord)
            &&& rank_of(pick(cards, ord), q, rk)
            &&& out == query_lines(pick(cards, ord), rk)
        }
}

/// The cards at the positions `ord`, in that order.
pub open spec fn pick(cards: Seq<Seq<LineView>>, ord: Seq<usize>) -> Seq<Seq<LineView>> {
    ord.map_values(|i: usize| cards[i as int])
}

fn field(value: &[char]) -> (r: Vec<char>)
    ensures
        r@ == field_text(value@),
{
    let mut r: Vec<char> = Vec::new();
    let mut i: usize = 0;
    while i < value.len()
        invariant
            i <= value@.len(),
            r@ == field_text(value@.take(i as int)),
        decreases value.len() - i,
    {
        let c = value[i];
        r.push(if c == '\t' || c == '\r' || c == '\n' { ' ' } else { c });
        assert(r@ =~= field_text(value@.take(i + 1)));
        i += 1;
    }
    assert(value@.take(value@.len() as int) =~= value@);
    r
}

/// The completion lines of one card.
fn lines_of_card(card: &Card) -> (r: Vec<String>)
    ensures
        crate::card::line::texts(r@) == card_lines(card@),
{
    let name = field(&chars_of(card.display_name().as_str()));
    let emails = card.emails();
    let ghost lv = labeled_values(card@, "EMAIL"@);
    let mut out: Vec<String> = Vec::new();
    let mut i: usize = 0;
    while i < emails.len()
        invariant
            i <= emails@.len(),
            labeled_texts(emails@) == lv,
            lv == labeled_values(card@, "EMAIL"@),
            name@ == field_text(card_get(card@, Field::DisplayName)),
            crate::card::line::texts(out@) == card_lines(card@).take(i as int),
        decreases emails.len() - i,
    {
        let e = &emails[i];
        assert(lv[i as int] == (opt_text(e.label), e.value@));
        let mut line = field(&chars_of(e.value.as_str()));
        line.push('\t');
        push_all(&mut line, &name);
        line.push('\t');
        let label = match &e.label {
            Some(l) => chars_of(l.as_str()),
            None => Vec::new(),
        };
        push_all(&mut line, &field(&label));
        assert(line@ =~= email_line(e.value@, card_get(card@, Field::DisplayName), opt_text(e.label)));
        let ghost before = crate::card::line::texts(out@);
        out.push(string_of(&line));
        assert(crate::card::line::texts(out@) =~= before.push(line@));
        assert(crate::card::line::texts(out@) =~= card_lines(card@).take(i + 1));
        i += 1;
    }
    assert(card_lines(card@).take(card_lines(card@).len() as int) =~= card_lines(card@));
    out
}

/// The completion lines for `text`: the cards in list order, ranked against
/// the query, then every email address of each as `address<TAB>display
/// name<TAB>label`, tabs and line breaks in the parts turned into spaces.
pub fn lines(book: &AddressBook, text: &str) -> (r: Vec<String>)
    ensures
        lines_of(book_views(*book), text@, crate::card::line::texts(r@)),
{
    let ghost all = book_views(*book);
    let mut cards: Vec<&Card> = Vec::new();
    let mut i: usize = 0;
    while i < book.cards.len()
        invariant
            all == book_views(*book),
            i <= book.cards@.len(),
            card_views(cards@) == all.take(i as int),
        decreases book.cards.len() - i,
    {
        let ghost before = card_views(cards@);
        let c = &book.cards[i].1;
        cards.push(c);
        assert(card_views(cards@) =~= before.push(c@));
        assert(all[i as int] == c@);
        assert(card_views(cards@) =~= all.take(i + 1));
        i += 1;
    }
    assert(card_views(cards@) =~= all);
    let ord = sorted_positions(&cards);
    let mut sorted: Vec<&Card> = Vec::new();
    let mut j: usize = 0;
    while j < ord.len()
        invariant
            card_views(cards@) == all,
            sorted_order(sort_keys(all), ord@),
            j <= ord@.len(),
            card_views(sorted@) == ord@.take(j as int).map_values(|x: usize| all[x as int]),
        decreases ord.len() - j,
    {
        let x = ord[j];
        let ghost before = card_views(sorted@);
        let c = cards[x];
        sorted.push(c);
        assert(card_views(sorted@) =~= before.push(c@));
        assert(all[x as int] == c@);
        assert(ord@.take(j + 1) =~= ord@.take(j as int).push(x));
        assert(card_views(sorted@) =~= ord@.take(j + 1).map_values(|x: usize| all[x as int]));
        j += 1;
    }
    assert(ord@.take(ord@.len() as int) =~= ord@);
    let ghost sv = card_views(sorted@);
    let ranked = rank(&sorted, text);
    let mut out: Vec<String> = Vec::new();
    let mut k: usize = 0;
    while k < ranked.len()
        invariant
            sv == card_views(sorted@),
            rank_of(sv, text@, ranked@),
            k <= ranked@.len(),
            crate::card::line::texts(out@) == query_lines(sv, ranked@.take(k as int)),
        decreases ranked.len() - k,
    {
        let x = ranked[k];
        assert(x < sorted@.len()) by {
            if text@.len() > 0 {
                assert(ranked@[k as int] < crate::search::card_hits(sv, text@, true).len());
            }
        }
        let mut more = lines_of_card(sorted[x]);
        let ghost before = crate::card::line::texts(out@);
        let ghost added = crate::card::line::texts(more@);
        out.append(&mut more);
        assert(crate::card::line::texts(out@) =~= before + added);
        assert(ranked@.take(k + 1).drop_last() =~= ranked@.take(k as int));
        k += 1;
    }
    assert(ranked@.take(ranked@.len() as int) =~= ranked@);
    assert(pick(all, ord@) =~= sv);
    assert(sorted_order(sort_keys(all), ord@) && rank_of(pick(all, ord@), text@, ranked@));
    out
}

} // verus!
