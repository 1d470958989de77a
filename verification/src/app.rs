//! The application state: the card list, the search that filters and ranks
//! it, the edit form, what each key does to them, and how an address book
//! read again after a change on disk is taken in. Writing a saved card to
//! disk is left to the caller: a save hands out the path and bytes to write,
//! and the outcome comes back through `finish_save`.
use crate::card::line::{lines_bytes, LineView};
use crate::card::{card_get, Card, Defect, Field};
use crate::form::{applied, form_step, input_texts, lemma_unedited_form_keeps_card, new_form, Form};
use crate::key::{Key, KeyCode};
use crate::order::sorted_order;
use crate::search::{
    card_hits, card_views, lemma_ranked_is_ranking, rank_by, ranking, sort_keys, sorted_positions,
};
use crate::text::{chars_of, string_of};
use crate::vdir::{
    card_entries, file_views, flat, skipped_entries, AddressBook, Location, Skipped,
};
use vstd::prelude::*;

verus! {

/// What the keys act on.
#[derive(Debug, Clone, Copy, PartialEq, Eq, Structural)]
pub enum Mode {
    Browse,
    Search,
    Edit,
    Discard,
    Prompt,
    Help,
}

/// A form as its inputs, the focused one, and whether the display name is
/// linked.
pub type FormView = (Seq<(Seq<char>, nat)>, nat, bool);

/// The state of the application.
pub struct AppView {
    /// The cards in list order, each with its file and position in it.
    pub cards: Seq<((Seq<char>, nat), Seq<LineView>)>,
    /// The chunks of each file, as loaded or last saved.
    pub files: Seq<(Seq<char>, Seq<Seq<u8>>)>,
    /// What could not be read.
    pub skipped: Seq<(Seq<char>, Option<int>, Defect)>,
    pub query: Seq<char>,
    /// The positions in `cards` of the cards the list shows.
    pub visible: Seq<usize>,
    /// The position in `visible` of the selected card.
    pub selected: nat,
    pub mode: Mode,
    pub form: Option<FormView>,
    pub error: Option<Seq<char>>,
    pub should_quit: bool,
    /// A saved card waiting for its file to be written.
    pub pending: Option<Seq<LineView>>,
    /// A note for the status bar, until the next key.
    pub status: Option<Seq<char>>,
    /// Whether the address book changed on disk while a form was open, so
    /// that it is to be read again once the list is back.
    pub reload_waiting: bool,
}

/// The lines of the cards of a list.
pub open spec fn card_list(cards: Seq<((Seq<char>, nat), Seq<LineView>)>) -> Seq<Seq<LineView>> {
    cards.map_values(|c: ((Seq<char>, nat), Seq<LineView>)| c.1)
}

/// The positions of the cards a search lists: every card in list order
/// for an empty query; else the cards whose display name, company or
/// department the query matches fuzzily, best match first, then those whose
/// phone numbers hold the query's digits, equal matches in list order.
pub open spec fn matching(cards: Seq<Seq<LineView>>, q: Seq<char>) -> Seq<usize> {
    if q.len() == 0 {
        Seq::new(cards.len(), |i: int| i as usize)
    } else {
        ranking(card_hits(cards, q, false))
    }
}

/// Where `x` first occurs in `v`, or -1.
pub open spec fn first_index(v: Seq<usize>, x: usize) -> int
    decreases v.len(),
{
    if v.len() == 0 {
        -1
    } else if first_index(v.drop_last(), x) >= 0 {
        first_index(v.drop_last(), x)
    } else if v.last() == x {
        v.len() - 1
    } else {
        -1
    }
}

/// The selection in a new list: where the card that was selected stands in
/// it, else the top.
pub open spec fn select_in(v: Seq<usize>, cur: Option<usize>) -> nat {
    match cur {
        Some(c) => if first_index(v, c) >= 0 {
            first_index(v, c) as nat
        } else {
            0
        },
        None => 0,
    }
}

/// The card the selection is on, as a position in the card list.
pub open spec fn current(s: AppView) -> Option<usize> {
    if s.selected < s.visible.len() {
        Some(s.visible[s.selected as int])
    } else {
        None
    }
}

/// The state with the list filtered by the query and the selection kept on
/// the card `cur` where it is still listed.
pub open spec fn filtered(s: AppView, cur: Option<usize>) -> AppView {
    let vis = matching(card_list(s.cards), s.query);
    AppView { visible: vis, selected: select_in(vis, cur), ..s }
}

/// The last position of a list, or zero.
pub open spec fn last_index(v: Seq<usize>) -> nat {
    if v.len() > 0 {
        (v.len() - 1) as nat
    } else {
        0
    }
}

/// The state with the form closed.
pub open spec fn closed(s: AppView) -> AppView {
    AppView { form: None, error: None, mode: Mode::Browse, ..s }
}

/// The state with the selected card's form open, if a card is selected.
pub open spec fn opened(s: AppView) -> AppView {
    if s.selected < s.visible.len() {
        AppView { form: Some(new_form(s.cards[s.visible[s.selected as int] as int].1)), mode: Mode::Edit, ..s }
    } else {
        s
    }
}

/// A key in the list: `j`/Down and `k`/Up move the selection, `g` and `G`
/// jump to the top and bottom, `/` searches, `e`/Enter edits, `?` shows
/// help, `!` lists the skipped cards when there are any, `q` quits.
pub open spec fn browse_step(s: AppView, key: Key) -> AppView {
    let last = last_index(s.visible);
    match key.code {
        KeyCode::Char('j') | KeyCode::Down => AppView {
            selected: if s.selected + 1 < last {
                s.selected + 1
            } else {
                last
            },
            ..s
        },
        KeyCode::Char('k') | KeyCode::Up => AppView {
            selected: if s.selected > 0 {
                (s.selected - 1) as nat
            } else {
                0
            },
            ..s
        },
        KeyCode::Char('g') => AppView { selected: 0, ..s },
        KeyCode::Char('G') => AppView { selected: last, ..s },
        KeyCode::Char('/') => AppView { mode: Mode::Search, ..s },
        KeyCode::Char('e') | KeyCode::Enter => opened(s),
        KeyCode::Char('?') => AppView { mode: Mode::Help, ..s },
        KeyCode::Char('!') => if s.skipped.len() > 0 {
            AppView { mode: Mode::Prompt, ..s }
        } else {
            s
        },
        KeyCode::Char('q') => AppView { should_quit: true, ..s },
        _ => s,
    }
}

/// A key while searching: characters extend the query and Backspace
/// shortens it, Enter keeps the filter and Esc clears it, both back to the
/// list; the list is filtered anew after each of these.
pub open spec fn search_step(s: AppView, key: Key) -> AppView {
    let cur = current(s);
    match key.code {
        KeyCode::Char(c) => filtered(AppView { query: s.query.push(c), ..s }, cur),
        KeyCode::Backspace => filtered(
            AppView {
                query: if s.query.len() > 0 {
                    s.query.drop_last()
                } else {
                    s.query
                },
                ..s
            },
            cur,
        ),
        KeyCode::Enter => filtered(AppView { mode: Mode::Browse, ..s }, cur),
        KeyCode::Esc => filtered(AppView { query: Seq::empty(), mode: Mode::Browse, ..s }, cur),
        _ => s,
    }
}

/// A key while asked whether to discard changes: `y` discards, `n` or Esc
/// goes back to the form.
pub open spec fn discard_step(s: AppView, key: Key) -> AppView {
    match key.code {
        KeyCode::Char('y') => closed(s),
        KeyCode::Char('n') | KeyCode::Esc => AppView { mode: Mode::Edit, ..s },
        _ => s,
    }
}

/// Where the first file with path `p` stands, if there is one.
pub open spec fn file_index(files: Seq<(Seq<char>, Seq<Seq<u8>>)>, p: Seq<char>) -> Option<int>
    decreases files.len(),
{
    if files.len() == 0 {
        None
    } else if file_index(files.drop_last(), p) is Some {
        file_index(files.drop_last(), p)
    } else if files.last().0 == p {
        Some(files.len() - 1)
    } else {
        None
    }
}

/// Whether the card at `loc` is a chunk of a known file.
pub open spec fn in_file(files: Seq<(Seq<char>, Seq<Seq<u8>>)>, loc: (Seq<char>, nat)) -> bool {
    match file_index(files, loc.0) {
        Some(f) => loc.1 < files[f].1.len(),
        None => false,
    }
}

/// What to write to save the card at `loc` as `b`: its whole file with the
/// card's chunk swapped for `b`, or `b` alone when the file is not known.
pub open spec fn saved_bytes(files: Seq<(Seq<char>, Seq<Seq<u8>>)>, loc: (Seq<char>, nat), b: Seq<u8>) -> Seq<u8> {
    if in_file(files, loc) {
        let f = file_index(files, loc.0)->0;
        flat(files[f].1.update(loc.1 as int, b))
    } else {
        b
    }
}

/// The files after the card at `loc` was saved as `b`.
pub open spec fn saved_files(files: Seq<(Seq<char>, Seq<Seq<u8>>)>, loc: (Seq<char>, nat), b: Seq<u8>) -> Seq<
    (Seq<char>, Seq<Seq<u8>>),
> {
    if in_file(files, loc) {
        let f = file_index(files, loc.0)->0;
        files.update(f, (files[f].0, files[f].1.update(loc.1 as int, b)))
    } else {
        files
    }
}

/// Where the card from `loc` first stands in a list.
pub open spec fn loc_pos(cards: Seq<((Seq<char>, nat), Seq<LineView>)>, loc: (Seq<char>, nat)) -> Option<usize>
    decreases cards.len(),
{
    if cards.len() == 0 {
        None
    } else if loc_pos(cards.drop_last(), loc) is Some {
        loc_pos(cards.drop_last(), loc)
    } else if cards.last().0 == loc {
        Some((cards.len() - 1) as usize)
    } else {
        None
    }
}

/// The cards at the positions `ord`, in that order.
pub open spec fn reordered(cards: Seq<((Seq<char>, nat), Seq<LineView>)>, ord: Seq<usize>) -> Seq<
    ((Seq<char>, nat), Seq<LineView>),
> {
    ord.map_values(|i: usize| cards[i as int])
}

/// `t` is `s` after the selected card was stored as `edited`: the card
/// replaced, its file's bytes updated, the form closed, the cards sorted
/// anew and the list filtered with the selection on the saved card.
pub open spec fn stored(s: AppView, edited: Seq<LineView>, t: AppView) -> bool {
    let index = s.visible[s.selected as int] as int;
    let loc = s.cards[index].0;
    let cards1 = s.cards.update(index, (loc, edited));
    exists|ord: Seq<usize>|
        #[trigger] sorted_order(sort_keys(card_list(cards1)), ord) && t == filtered(
            AppView {
                cards: reordered(cards1, ord),
                files: saved_files(s.files, loc, lines_bytes(edited)),
                form: None,
                error: None,
                mode: Mode::Browse,
                pending: None,
                ..s
            },
            loc_pos(reordered(cards1, ord), loc),
        )
}

/// A key in the form: Control-S saves (at once when nothing changed, else
/// by asking for the file to be written), Esc asks before discarding
/// changes or closes the form, other keys go to the form. Any error shown
/// is cleared first.
pub open spec fn edit_step(s: AppView, key: Key, t: AppView, req: Option<(Seq<char>, Seq<u8>)>) -> bool {
    let s1 = AppView { error: None, ..s };
    let index = s.visible[s.selected as int] as int;
    let card = s.cards[index].1;
    let f = s.form->0;
    let edited = applied(card, input_texts(f.0), 9);
    if key.code == KeyCode::Char('s') && key.ctrl {
        if edited == card {
            req is None && stored(s1, edited, t)
        } else {
            &&& req == Some((s.cards[index].0.0, saved_bytes(s.files, s.cards[index].0, lines_bytes(edited))))
            &&& t == AppView { pending: Some(edited), ..s1 }
        }
    } else if key.code == KeyCode::Esc {
        &&& req is None
        &&& t == if edited != card {
            AppView { mode: Mode::Discard, ..s1 }
        } else {
            closed(s1)
        }
    } else {
        req is None && t == AppView { form: Some(form_step(f, key)), ..s1 }
    }
}

/// What a key does: it goes to the list, the search, the form or the
/// discard question as the mode says; in the help or the skipped list any
/// key goes back to the list. A save still waiting is dropped first.
pub open spec fn app_step(s0: AppView, key: Key, t: AppView, req: Option<(Seq<char>, Seq<u8>)>) -> bool {
    let s = AppView { pending: None, status: None, ..s0 };
    match s.mode {
        Mode::Browse => req is None && t == browse_step(s, key),
        Mode::Search => req is None && t == search_step(s, key),
        Mode::Edit => edit_step(s, key, t, req),
        Mode::Discard => req is None && t == discard_step(s, key),
        Mode::Prompt | Mode::Help => req is None && t == AppView { mode: Mode::Browse, ..s },
    }
}

/// A file to write: the saved card's file, its new bytes, and the bytes it
/// was loaded with (or last saved as), which the file on disk should still
/// hold; `None` when the file is not one the book was read from.
pub struct SaveRequest {
    pub path: String,
    pub bytes: Vec<u8>,
    pub loaded: Option<Vec<u8>>,
}

/// The bytes the file at `p` was loaded with or last saved as.
pub open spec fn loaded_of(files: Seq<(Seq<char>, Seq<Seq<u8>>)>, p: Seq<char>) -> Option<Seq<u8>> {
    match file_index(files, p) {
        Some(f) => Some(flat(files[f].1)),
        None => None,
    }
}

/// The loaded bytes a request carries.
pub open spec fn request_loaded(r: Option<SaveRequest>) -> Option<Seq<u8>> {
    match r {
        Some(q) => match q.loaded {
            Some(b) => Some(b@),
            None => None,
        },
        None => None,
    }
}

/// A request as path and bytes.
pub open spec fn request_view(r: Option<SaveRequest>) -> Option<(Seq<char>, Seq<u8>)> {
    match r {
        Some(q) => Some((q.path@, q.bytes@)),
        None => None,
    }
}

/// The application: the cards of an address book in list order, the
/// search, the form, and the mode the keys act in.
pub struct App {
    cards: Vec<(Location, Card)>,
    files: Vec<(String, Vec<Vec<u8>>)>,
    skipped: Vec<Skipped>,
    query: Vec<char>,
    query_text: String,
    visible: Vec<usize>,
    selected: usize,
    mode: Mode,
    form: Option<Form>,
    error: Option<String>,
    should_quit: bool,
    pending: Option<Card>,
    status: Option<String>,
    reload_waiting: bool,
}

/// A location as path and position.
pub open spec fn loc_view(l: Location) -> (Seq<char>, nat) {
    (l.0@, l.1 as nat)
}

/// Cards with their locations.
pub open spec fn located_cards(v: Seq<(Location, Card)>) -> Seq<((Seq<char>, nat), Seq<LineView>)> {
    v.map_values(|c: (Location, Card)| (loc_view(c.0), c.1@))
}

/// An optional text.
pub open spec fn opt_string(o: Option<String>) -> Option<Seq<char>> {
    match o {
        Some(s) => Some(s@),
        None => None,
    }
}

impl View for App {
    type V = AppView;

    closed spec fn view(&self) -> AppView {
        AppView {
            cards: located_cards(self.cards@),
            files: file_views(self.files@),
            skipped: skipped_entries(self.skipped@),
            query: self.query@,
            visible: self.visible@,
            selected: self.selected as nat,
            mode: self.mode,
            form: match self.form {
                Some(f) => Some(f@),
                None => None,
            },
            error: opt_string(self.error),
            should_quit: self.should_quit,
            pending: match self.pending {
                Some(c) => Some(c@),
                None => None,
            },
            status: opt_string(self.status),
            reload_waiting: self.reload_waiting,
        }
    }
}

impl App {
    /// The state hangs together: the list shows exactly the cards the query
    /// matches, and the rest of `core_wf` holds.
    pub closed spec fn wf(&self) -> bool {
        &&& self.core_wf()
        &&& self@.visible == matching(card_list(self@.cards), self@.query)
    }

    /// The cards are well formed, the list shows cards that exist, the
    /// selection is in the list (or at the top of an empty one), and the
    /// form and discard modes have a form on a selected card.
    closed spec fn core_wf(&self) -> bool {
        &&& forall|k: int| 0 <= k < self.cards@.len() ==> (#[trigger] self.cards@[k]).1.wf()
        &&& self.query_text@ == self.query@
        &&& forall|k: int| 0 <= k < self.visible@.len() ==> (#[trigger] self.visible@[k]) < self.cards@.len()
        &&& self.selected < self.visible@.len() || self.selected == 0
        &&& (self.mode == Mode::Edit || self.mode == Mode::Discard) ==> self.form is Some && self.selected
            < self.visible@.len()
        &&& self.form matches Some(f) ==> f.wf()
        &&& self.pending matches Some(c) ==> c.wf() && self.mode == Mode::Edit
    }
}

/// Where `x` first occurs in `v`, else zero.
fn select_of(v: &Vec<usize>, cur: Option<usize>) -> (r: usize)
    ensures
        r == select_in(v@, cur),
{
    match cur {
        None => 0,
        Some(c) => {
            let mut k: usize = 0;
            while k < v.len()
                invariant
                    cur == Some(c),
                    k <= v@.len(),
                    first_index(v@.take(k as int), c) == -1,
                decreases v.len() - k,
            {
                assert(v@.take(k + 1).drop_last() =~= v@.take(k as int));
                if v[k] == c {
                    assert(first_index(v@.take(k + 1), c) == k);
                    proof {
                        lemma_first_index_prefix(v@, c, k + 1);
                    }
                    return k;
                }
                k += 1;
            }
            assert(v@.take(v@.len() as int) =~= v@);
            0
        },
    }
}

/// The first occurrence found in a prefix is the first in the whole.
proof fn lemma_first_index_prefix(v: Seq<usize>, x: usize, n: int)
    requires
        0 <= n <= v.len(),
        first_index(v.take(n), x) >= 0,
    ensures
        first_index(v, x) == first_index(v.take(n), x),
    decreases v.len() - n,
{
    if n < v.len() {
        assert(v.take(n + 1).drop_last() =~= v.take(n));
        lemma_first_index_prefix(v, x, n + 1);
    } else {
        assert(v.take(n) =~= v);
    }
}

proof fn lemma_first_index_bound(v: Seq<usize>, cur: Option<usize>)
    ensures
        select_in(v, cur) < v.len() || select_in(v, cur) == 0,
    decreases v.len(),
{
    if let Some(c) = cur {
        lemma_first_index_lt(v, c);
    }
}

proof fn lemma_first_index_lt(v: Seq<usize>, x: usize)
    ensures
        first_index(v, x) < v.len(),
    decreases v.len(),
{
    if v.len() > 0 {
        lemma_first_index_lt(v.drop_last(), x);
    }
}

impl App {
    /// Filters the list by the query, keeping the selection on card `cur`
    /// where it is still listed.
    fn filter(&mut self, cur: Option<usize>)
        requires
            old(self).core_wf(),
            old(self).mode != Mode::Edit,
            old(self).mode != Mode::Discard,
            old(self).pending is None,
        ensures
            final(self).wf(),
            final(self)@ == filtered(old(self)@, cur),
    {
        let ghost cl = card_list(located_cards(self.cards@));
        let mut refs: Vec<&Card> = Vec::new();
        let mut i: usize = 0;
        while i < self.cards.len()
            invariant
                cl == card_list(located_cards(self.cards@)),
                i <= self.cards@.len(),
                card_views(refs@) == cl.take(i as int),
            decreases self.cards.len() - i,
        {
            let ghost before = card_views(refs@);
            let c = &self.cards[i].1;
            refs.push(c);
            assert(card_views(refs@) =~= before.push(c@));
            assert(cl.take(i + 1) =~= cl.take(i as int).push(c@));
            i += 1;
        }
        assert(cl.take(cl.len() as int) =~= cl);
        let vis = rank_by(&refs, self.query_text.as_str(), false);
        proof {
            if self.query@.len() > 0 {
                lemma_ranked_is_ranking(card_hits(cl, self.query@, false), vis@);
            }
            assert(vis@ =~= matching(cl, self.query@));
            assert forall|k: int| 0 <= k < vis@.len() implies (#[trigger] vis@[k]) < self.cards@.len() by {
                if self.query@.len() > 0 {
                    assert(vis@[k] < card_hits(cl, self.query@, false).len());
                }
            }
        }
        let sel = select_of(&vis, cur);
        proof {
            lemma_first_index_bound(vis@, cur);
        }
        self.visible = vis;
        self.selected = sel;
    }

    /// Sorts the cards into list order.
    fn resort(&mut self) -> (ord: Ghost<Seq<usize>>)
        requires
            old(self).core_wf(),
        ensures
            final(self).core_wf(),
            sorted_order(sort_keys(card_list(located_cards(old(self).cards@))), ord@),
            final(self)@ == (AppView { cards: reordered(old(self)@.cards, ord@), ..old(self)@ }),
            final(self).cards@.len() == old(self).cards@.len(),
            forall|k: int| 0 <= k < final(self).cards@.len() ==> (#[trigger] final(self).cards@[k]).1.wf(),
    {
        let ghost cs = located_cards(self.cards@);
        let mut refs: Vec<&Card> = Vec::new();
        let mut i: usize = 0;
        while i < self.cards.len()
            invariant
                cs == located_cards(self.cards@),
                i <= self.cards@.len(),
                card_views(refs@) == card_list(cs).take(i as int),
            decreases self.cards.len() - i,
        {
            let ghost before = card_views(refs@);
            let c = &self.cards[i].1;
            refs.push(c);
            assert(card_views(refs@) =~= before.push(c@));
            assert(card_list(cs).take(i + 1) =~= card_list(cs).take(i as int).push(c@));
            i += 1;
        }
        assert(card_list(cs).take(card_list(cs).len() as int) =~= card_list(cs));
        let ord = sorted_positions(&refs);
        let mut cards: Vec<(Location, Card)> = Vec::new();
        let mut j: usize = 0;
        while j < ord.len()
            invariant
                cs == located_cards(self.cards@),
                sorted_order(sort_keys(card_list(cs)), ord@),
                forall|k: int| 0 <= k < self.cards@.len() ==> (#[trigger] self.cards@[k]).1.wf(),
                j <= ord@.len(),
                located_cards(cards@) == reordered(cs, ord@.take(j as int)),
                forall|k: int| 0 <= k < cards@.len() ==> (#[trigger] cards@[k]).1.wf(),
            decreases ord.len() - j,
        {
            let x = ord[j];
            let e = &self.cards[x];
            let entry = ((e.0.0.clone(), e.0.1), e.1.clone());
            let ghost before = located_cards(cards@);
            cards.push(entry);
            assert(located_cards(cards@) =~= before.push(cs[x as int]));
            assert(ord@.take(j + 1) =~= ord@.take(j as int).push(x));
            assert(reordered(cs, ord@.take(j + 1)) =~= reordered(cs, ord@.take(j as int)).push(cs[x as int]));
            j += 1;
        }
        assert(ord@.take(ord@.len() as int) =~= ord@);
        self.cards = cards;
        Ghost(ord@)
    }
}

proof fn lemma_file_index_prefix(files: Seq<(Seq<char>, Seq<Seq<u8>>)>, p: Seq<char>, n: int)
    requires
        0 <= n <= files.len(),
        file_index(files.take(n), p) is Some,
    ensures
        file_index(files, p) == file_index(files.take(n), p),
    decreases files.len() - n,
{
    if n < files.len() {
        assert(files.take(n + 1).drop_last() =~= files.take(n));
        lemma_file_index_prefix(files, p, n + 1);
    } else {
        assert(files.take(n) =~= files);
    }
}

proof fn lemma_file_index_bound(files: Seq<(Seq<char>, Seq<Seq<u8>>)>, p: Seq<char>)
    ensures
        file_index(files, p) matches Some(f) ==> 0 <= f < files.len() && files[f].0 == p,
    decreases files.len(),
{
    if files.len() > 0 {
        lemma_file_index_bound(files.drop_last(), p);
    }
}

proof fn lemma_loc_pos_prefix(cards: Seq<((Seq<char>, nat), Seq<LineView>)>, loc: (Seq<char>, nat), n: int)
    requires
        0 <= n <= cards.len(),
        loc_pos(cards.take(n), loc) is Some,
    ensures
        loc_pos(cards, loc) == loc_pos(cards.take(n), loc),
    decreases cards.len() - n,
{
    if n < cards.len() {
        assert(cards.take(n + 1).drop_last() =~= cards.take(n));
        lemma_loc_pos_prefix(cards, loc, n + 1);
    } else {
        assert(cards.take(n) =~= cards);
    }
}

/// The first file with path `p`.
fn find_file(files: &Vec<(String, Vec<Vec<u8>>)>, p: &String) -> (r: Option<usize>)
    ensures
        match r {
            Some(f) => file_index(file_views(files@), p@) == Some(f as int),
            None => file_index(file_views(files@), p@) is None,
        },
{
    let ghost fs = file_views(files@);
    let mut k: usize = 0;
    while k < files.len()
        invariant
            fs == file_views(files@),
            k <= files@.len(),
            file_index(fs.take(k as int), p@) is None,
        decreases files.len() - k,
    {
        assert(fs.take(k + 1).drop_last() =~= fs.take(k as int));
        if files[k].0 == *p {
            proof {
                lemma_file_index_prefix(fs, p@, k + 1);
            }
            return Some(k);
        }
        k += 1;
    }
    assert(fs.take(fs.len() as int) =~= fs);
    None
}

/// The first position of a card from `loc`.
fn find_card(cards: &Vec<(Location, Card)>, path: &String, pos: usize) -> (r: Option<usize>)
    ensures
        r == loc_pos(located_cards(cards@), (path@, pos as nat)),
{
    let ghost cs = located_cards(cards@);
    let mut k: usize = 0;
    while k < cards.len()
        invariant
            cs == located_cards(cards@),
            k <= cards@.len(),
            loc_pos(cs.take(k as int), (path@, pos as nat)) is None,
        decreases cards.len() - k,
    {
        assert(cs.take(k + 1).drop_last() =~= cs.take(k as int));
        if cards[k].0.0 == *path && cards[k].0.1 == pos {
            proof {
                lemma_loc_pos_prefix(cs, (path@, pos as nat), k + 1);
            }
            return Some(k);
        }
        k += 1;
    }
    assert(cs.take(cs.len() as int) =~= cs);
    None
}

/// The list order of a book's cards, the list showing all of them.
pub open spec fn opened_on(book: AddressBook, ord: Seq<usize>) -> AppView {
    let cs = located_cards(book.cards@);
    AppView {
        cards: reordered(cs, ord),
        files: file_views(book.files@),
        skipped: skipped_entries(book.skipped@),
        query: Seq::empty(),
        visible: Seq::new(cs.len(), |i: int| i as usize),
        selected: 0,
        mode: Mode::Browse,
        form: None,
        error: None,
        should_quit: false,
        pending: None,
        status: None,
        reload_waiting: false,
    }
}

impl App {
    /// The application on an address book: its cards sorted into list order
    /// (by family, given and display name, lowercased; equal keys in book
    /// order), all listed, the first selected, nothing searched.
    pub fn new(book: AddressBook) -> (app: Self)
        requires
            forall|k: int| 0 <= k < book.cards@.len() ==> (#[trigger] book.cards@[k]).1.wf(),
        ensures
            app.wf(),
            exists|ord: Seq<usize>|
                #[trigger] sorted_order(sort_keys(card_list(located_cards(book.cards@))), ord) && app@
                    == opened_on(book, ord),
    {
        let ghost b = book;
        let n = book.cards.len();
        let mut visible: Vec<usize> = Vec::new();
        let mut i: usize = 0;
        while i < n
            invariant
                i <= n,
                visible@ == Seq::new(i as nat, |k: int| k as usize),
            decreases n - i,
        {
            visible.push(i);
            assert(visible@ =~= Seq::new((i + 1) as nat, |k: int| k as usize));
            i += 1;
        }
        let mut app = App {
            cards: book.cards,
            files: book.files,
            skipped: book.skipped,
            query: Vec::new(),
            query_text: String::new(),
            visible,
            selected: 0,
            mode: Mode::Browse,
            form: None,
            error: None,
            should_quit: false,
            pending: None,
            status: None,
            reload_waiting: false,
        };
        assert(app.query@ =~= app.query_text@);
        let ord = app.resort();
        assert(app@ =~= opened_on(b, ord@));
        app
    }

    /// The cards the list shows, in order.
    pub fn cards(&self) -> (r: Vec<&Card>)
        requires
            self.wf(),
        ensures
            card_views(r@) == self@.visible.map_values(|i: usize| self@.cards[i as int].1),
    {
        let mut r: Vec<&Card> = Vec::new();
        let mut k: usize = 0;
        while k < self.visible.len()
            invariant
                self.wf(),
                k <= self.visible@.len(),
                card_views(r@) == self@.visible.take(k as int).map_values(|i: usize| self@.cards[i as int].1),
            decreases self.visible.len() - k,
        {
            let x = self.visible[k];
            let ghost before = card_views(r@);
            let c = &self.cards[x].1;
            r.push(c);
            assert(card_views(r@) =~= before.push(c@));
            assert(self@.visible.take(k + 1) =~= self@.visible.take(k as int).push(x));
            k += 1;
        }
        assert(self@.visible.take(self@.visible.len() as int) =~= self@.visible);
        r
    }

    /// What could not be read.
    pub fn skipped(&self) -> (r: &[Skipped])
        ensures
            skipped_entries(r@) == self@.skipped,
    {
        self.skipped.as_slice()
    }

    /// The search query.
    pub fn query(&self) -> (r: &str)
        requires
            self.wf(),
        ensures
            r@ == self@.query,
    {
        self.query_text.as_str()
    }

    /// The position of the selected card in the list.
    pub fn selected(&self) -> (r: usize)
        ensures
            r == self@.selected,
    {
        self.selected
    }

    /// The selected card, if the list shows any.
    pub fn selected_card(&self) -> (r: Option<&Card>)
        requires
            self.wf(),
        ensures
            match r {
                Some(c) => current(self@) == Some(self@.visible[self@.selected as int]) && c@ == self@.cards[self@.visible[self@.selected as int] as int].1,
                None => current(self@) is None,
            },
    {
        if self.selected < self.visible.len() {
            Some(&self.cards[self.visible[self.selected]].1)
        } else {
            None
        }
    }

    /// The form, while one is open.
    pub fn form(&self) -> (r: Option<&Form>)
        requires
            self.wf(),
        ensures
            match r {
                Some(f) => self@.form == Some(f@) && f.wf(),
                None => self@.form is None,
            },
    {
        match &self.form {
            Some(f) => Some(f),
            None => None,
        }
    }

    /// The error to show, if any.
    pub fn error(&self) -> (r: Option<&str>)
        ensures
            match r {
                Some(e) => self@.error == Some(e@),
                None => self@.error is None,
            },
    {
        match &self.error {
            Some(e) => Some(e.as_str()),
            None => None,
        }
    }

    /// What the keys act on.
    pub fn mode(&self) -> (r: Mode)
        ensures
            r == self@.mode,
    {
        self.mode
    }

    /// Whether the user asked to quit.
    pub fn should_quit(&self) -> (r: bool)
        ensures
            r == self@.should_quit,
    {
        self.should_quit
    }
}

impl App {
    fn browse(&mut self, key: Key)
        requires
            old(self).wf(),
            old(self).mode == Mode::Browse,
            old(self).pending is None,
        ensures
            final(self).wf(),
            final(self)@ == browse_step(old(self)@, key),
    {
        let last = if self.visible.len() > 0 {
            self.visible.len() - 1
        } else {
            0
        };
        match key.code {
            KeyCode::Char('j') | KeyCode::Down => {
                self.selected = if self.selected + 1 < last {
                    self.selected + 1
                } else {
                    last
                };
            },
            KeyCode::Char('k') | KeyCode::Up => {
                self.selected = if self.selected > 0 {
                    self.selected - 1
                } else {
                    0
                };
            },
            KeyCode::Char('g') => {
                self.selected = 0;
            },
            KeyCode::Char('G') => {
                self.selected = last;
            },
            KeyCode::Char('/') => {
                self.mode = Mode::Search;
            },
            KeyCode::Char('e') | KeyCode::Enter => self.open_form(),
            KeyCode::Char('?') => {
                self.mode = Mode::Help;
            },
            KeyCode::Char('!') => {
                if self.skipped.len() > 0 {
                    self.mode = Mode::Prompt;
                }
            },
            KeyCode::Char('q') => {
                self.should_quit = true;
            },
            _ => {},
        }
    }

    fn open_form(&mut self)
        requires
            old(self).wf(),
            old(self).pending is None,
        ensures
            final(self).wf(),
            final(self)@ == opened(old(self)@),
    {
        if self.selected < self.visible.len() {
            let index = self.visible[self.selected];
            self.form = Some(Form::new(&self.cards[index].1));
            self.mode = Mode::Edit;
        }
    }

    fn close_form(&mut self)
        requires
            old(self).wf(),
            old(self).pending is None,
        ensures
            final(self).wf(),
            final(self)@ == closed(old(self)@),
    {
        self.form = None;
        self.error = None;
        self.mode = Mode::Browse;
    }

    fn search(&mut self, key: Key)
        requires
            old(self).wf(),
            old(self).mode == Mode::Search,
            old(self).pending is None,
        ensures
            final(self).wf(),
            final(self)@ == search_step(old(self)@, key),
    {
        let cur = if self.selected < self.visible.len() {
            Some(self.visible[self.selected])
        } else {
            None
        };
        match key.code {
            KeyCode::Char(c) => {
                self.query.push(c);
            },
            KeyCode::Backspace => {
                self.query.pop();
            },
            KeyCode::Enter => {
                self.mode = Mode::Browse;
            },
            KeyCode::Esc => {
                self.query = Vec::new();
                self.mode = Mode::Browse;
            },
            _ => {
                return;
            },
        }
        self.query_text = string_of(&self.query);
        self.filter(cur);
    }

    fn discard(&mut self, key: Key)
        requires
            old(self).wf(),
            old(self).mode == Mode::Discard,
            old(self).pending is None,
        ensures
            final(self).wf(),
            final(self)@ == discard_step(old(self)@, key),
    {
        match key.code {
            KeyCode::Char('y') => self.close_form(),
            KeyCode::Char('n') | KeyCode::Esc => {
                self.mode = Mode::Edit;
            },
            _ => {},
        }
    }

    /// The bytes to write to save the card at `path` and `pos` as `b`.
    fn bytes_to_save(&self, path: &String, pos: usize, b: &Vec<u8>) -> (r: Vec<u8>)
        ensures
            r@ == saved_bytes(self@.files, (path@, pos as nat), b@),
    {
        proof {
            lemma_file_index_bound(self@.files, path@);
        }
        match find_file(&self.files, path) {
            Some(f) => {
                if pos < self.files[f].1.len() {
                    let chunks = &self.files[f].1;
                    let mut copy: Vec<Vec<u8>> = Vec::new();
                    let mut k: usize = 0;
                    let ghost want = self@.files[f as int].1.update(pos as int, b@);
                    while k < chunks.len()
                        invariant
                            pos < chunks@.len(),
                            want == crate::vdir::byte_views(chunks@).update(pos as int, b@),
                            k <= chunks@.len(),
                            crate::vdir::byte_views(copy@) == want.take(k as int),
                        decreases chunks.len() - k,
                    {
                        let c = if k == pos {
                            crate::text::copy_range(b, 0, b.len())
                        } else {
                            crate::text::copy_range(&chunks[k], 0, chunks[k].len())
                        };
                        let ghost before = crate::vdir::byte_views(copy@);
                        copy.push(c);
                        assert(c@ =~= want[k as int]);
                        assert(crate::vdir::byte_views(copy@) =~= before.push(c@));
                        assert(want.take(k + 1) =~= want.take(k as int).push(want[k as int]));
                        k += 1;
                    }
                    assert(want.take(want.len() as int) =~= want);
                    crate::vdir::concat(&copy)
                } else {
                    crate::text::copy_range(b, 0, b.len())
                }
            },
            None => crate::text::copy_range(b, 0, b.len()),
        }
    }

    /// Records that the card at `path` and `pos` now reads `b`.
    fn update_file(&mut self, path: &String, pos: usize, b: Vec<u8>)
        requires
            old(self).core_wf(),
        ensures
            final(self).core_wf(),
            final(self)@ == (AppView { files: saved_files(old(self)@.files, (path@, pos as nat), b@), ..old(self)@ }),
    {
        proof {
            lemma_file_index_bound(self@.files, path@);
        }
        match find_file(&self.files, path) {
            Some(f) => {
                if pos < self.files[f].1.len() {
                    let ghost fs = self@.files;
                    let mut entry: (String, Vec<Vec<u8>>) = (String::new(), Vec::new());
                    self.files.set_and_swap(f, &mut entry);
                    let mut chunks = entry.1;
                    chunks.set(pos, b);
                    let updated = (entry.0, chunks);
                    let ghost uv = (updated.0@, crate::vdir::byte_views(updated.1@));
                    let mut slot = updated;
                    self.files.set_and_swap(f, &mut slot);
                    assert(uv == (fs[f as int].0, fs[f as int].1.update(pos as int, b@)));
                    assert(file_views(self.files@) =~= fs.update(f as int, uv));
                }
            },
            None => {},
        }
    }

    /// Stores the edited selected card: into its file's chunks, the list,
    /// sorted anew, and filtered with the selection on it.
    fn store(&mut self, edited: Card)
        requires
            old(self).wf(),
            old(self).mode == Mode::Edit,
            old(self).pending is None,
            old(self).error is None,
            edited.wf(),
        ensures
            final(self).wf(),
            stored(old(self)@, edited@, final(self)@),
    {
        let ghost s = self@;
        let index = self.visible[self.selected];
        let path = self.cards[index].0.0.clone();
        let pos = self.cards[index].0.1;
        let bytes = edited.to_bytes();
        self.update_file(&path, pos, bytes);
        let mut entry = ((path.clone(), pos), edited);
        let ghost ev = (loc_view(entry.0), entry.1@);
        self.cards.set_and_swap(index, &mut entry);
        self.form = None;
        self.error = None;
        self.mode = Mode::Browse;
        let ghost cards1 = located_cards(self.cards@);
        assert(cards1 =~= s.cards.update(index as int, ev));
        let ord = self.resort();
        let at = find_card(&self.cards, &path, pos);
        self.filter(at);
    }

    fn edit(&mut self, key: Key) -> (r: Option<SaveRequest>)
        requires
            old(self).wf(),
            old(self).mode == Mode::Edit,
            old(self).pending is None,
        ensures
            final(self).wf(),
            edit_step(old(self)@, key, final(self)@, request_view(r)),
            r matches Some(q) ==> request_loaded(r) == loaded_of(old(self)@.files, q.path@),
    {
        self.error = None;
        let index = self.visible[self.selected];
        if key.code == KeyCode::Char('s') && key.ctrl {
            let edited = match &self.form {
                Some(f) => f.apply(&self.cards[index].1),
                None => {
                    return None;
                },
            };
            if edited.same_lines(&self.cards[index].1) {
                self.store(edited);
                return None;
            }
            let path = self.cards[index].0.0.clone();
            let pos = self.cards[index].0.1;
            let bytes = self.bytes_to_save(&path, pos, &edited.to_bytes());
            proof {
                lemma_file_index_bound(self@.files, path@);
            }
            let loaded = match find_file(&self.files, &path) {
                Some(f) => Some(crate::vdir::concat(&self.files[f].1)),
                None => None,
            };
            self.pending = Some(edited);
            return Some(SaveRequest { path, bytes, loaded });
        }
        if key.code == KeyCode::Esc {
            let edited = match &self.form {
                Some(f) => f.apply(&self.cards[index].1),
                None => {
                    return None;
                },
            };
            if !edited.same_lines(&self.cards[index].1) {
                self.mode = Mode::Discard;
            } else {
                self.close_form();
            }
            return None;
        }
        let mut f = self.form.take().unwrap();
        f.handle_key(key);
        self.form = Some(f);
        None
    }

    /// Handles a key and, when it saves a changed card, returns the file to
    /// write; the outcome of the write goes to `finish_save`.
    pub fn handle_key(&mut self, key: Key) -> (r: Option<SaveRequest>)
        requires
            old(self).wf(),
        ensures
            final(self).wf(),
            app_step(old(self)@, key, final(self)@, request_view(r)),
            r matches Some(q) ==> request_loaded(r) == loaded_of(old(self)@.files, q.path@),
    {
        self.pending = None;
        self.status = None;
        match self.mode {
            Mode::Browse => {
                self.browse(key);
                None
            },
            Mode::Search => {
                self.search(key);
                None
            },
            Mode::Edit => self.edit(key),
            Mode::Discard => {
                self.discard(key);
                None
            },
            Mode::Prompt | Mode::Help => {
                self.mode = Mode::Browse;
                None
            },
        }
    }

    /// Takes the outcome of writing a saved card's file: on success the card
    /// is stored and the form closes; on failure the form stays open with
    /// `save failed: ` and the reason shown.
    pub fn finish_save(&mut self, result: Result<(), String>)
        requires
            old(self).wf(),
        ensures
            final(self).wf(),
            match old(self)@.pending {
                None => final(self)@ == old(self)@,
                Some(edited) => match result {
                    Ok(_) => stored(AppView { pending: None, error: None, ..old(self)@ }, edited, final(self)@),
                    Err(m) => final(self)@ == (AppView {
                        error: Some("save failed: "@ + m@),
                        pending: None,
                        ..old(self)@
                    }),
                },
            },
    {
        match self.pending.take() {
            None => {},
            Some(edited) => match result {
                Ok(()) => {
                    self.error = None;
                    self.store(edited);
                },
                Err(m) => {
                    let mut text = chars_of("save failed: ");
                    crate::text::push_all(&mut text, &chars_of(m.as_str()));
                    self.error = Some(string_of(&text));
                },
            },
        }
    }
}

/// The selection after the list changed under it: the card at position
/// `at` of the cards where the list still shows it, else the same place in
/// the list, or its last card when the list got shorter.
pub open spec fn reselect(vis: Seq<usize>, at: Option<usize>, sel: nat) -> nat {
    if at is Some && first_index(vis, at->0) >= 0 {
        first_index(vis, at->0) as nat
    } else if sel <= last_index(vis) {
        sel
    } else {
        last_index(vis)
    }
}

/// The state after the address book was read again as `book`, its cards
/// put in list order `ord`: the query, the mode and what is open stay; the
/// list is filtered anew; the selection stays on the card from the same
/// file and position, else on the card now in its place; the status says
/// `reloaded`, or that the selected card was removed on disk.
pub open spec fn reloaded(s: AppView, book: AddressBook, ord: Seq<usize>) -> AppView {
    let cards = reordered(located_cards(book.cards@), ord);
    let vis = matching(card_list(cards), s.query);
    let at = match current(s) {
        Some(i) => loc_pos(cards, s.cards[i as int].0),
        None => None,
    };
    let gone = current(s) is Some && at is None;
    AppView {
        cards,
        files: file_views(book.files@),
        skipped: skipped_entries(book.skipped@),
        visible: vis,
        selected: reselect(vis, at, s.selected),
        status: Some(
            if gone {
                card_get(s.cards[current(s)->0 as int].1, Field::DisplayName) + " removed on disk"@
            } else {
                "reloaded"@
            },
        ),
        reload_waiting: false,
        ..s
    }
}

/// Whether the address book is read again at once when it changes on
/// disk: not while a form is open or a discard is asked.
pub open spec fn reloads_now(s: AppView) -> bool {
    s.mode != Mode::Edit && s.mode != Mode::Discard
}

/// Whether two lists of chunks hold the same bytes.
fn same_chunks(a: &Vec<Vec<u8>>, b: &Vec<Vec<u8>>) -> (r: bool)
    ensures
        r == (crate::vdir::byte_views(a@) == crate::vdir::byte_views(b@)),
{
    if a.len() != b.len() {
        assert(crate::vdir::byte_views(a@).len() != crate::vdir::byte_views(b@).len());
        return false;
    }
    let mut k: usize = 0;
    while k < a.len()
        invariant
            a@.len() == b@.len(),
            k <= a@.len(),
            forall|j: int| 0 <= j < k ==> (#[trigger] a@[j])@ == b@[j]@,
        decreases a.len() - k,
    {
        if !crate::text::same_bytes(a[k].as_slice(), b[k].as_slice()) {
            assert(crate::vdir::byte_views(a@)[k as int] != crate::vdir::byte_views(b@)[k as int]);
            return false;
        }
        k += 1;
    }
    assert(crate::vdir::byte_views(a@) =~= crate::vdir::byte_views(b@));
    true
}

/// Whether two lists of files have the same paths and chunks.
fn same_files(a: &Vec<(String, Vec<Vec<u8>>)>, b: &Vec<(String, Vec<Vec<u8>>)>) -> (r: bool)
    ensures
        r == (file_views(a@) == file_views(b@)),
{
    if a.len() != b.len() {
        assert(file_views(a@).len() != file_views(b@).len());
        return false;
    }
    let mut k: usize = 0;
    while k < a.len()
        invariant
            a@.len() == b@.len(),
            k <= a@.len(),
            forall|j: int| 0 <= j < k ==> #[trigger] file_views(a@)[j] == file_views(b@)[j],
        decreases a.len() - k,
    {
        let same_path = crate::card::same_text(
            chars_of(a[k].0.as_str()).as_slice(),
            chars_of(b[k].0.as_str()).as_slice(),
        );
        if !same_path || !same_chunks(&a[k].1, &b[k].1) {
            assert(file_views(a@)[k as int] != file_views(b@)[k as int]);
            return false;
        }
        k += 1;
    }
    assert(file_views(a@) =~= file_views(b@));
    true
}

/// Where `x` first occurs in `v`, if it does.
fn find_index(v: &Vec<usize>, x: usize) -> (r: Option<usize>)
    ensures
        match r {
            Some(k) => first_index(v@, x) == k,
            None => first_index(v@, x) < 0,
        },
{
    let mut k: usize = 0;
    while k < v.len()
        invariant
            k <= v@.len(),
            first_index(v@.take(k as int), x) == -1,
        decreases v.len() - k,
    {
        assert(v@.take(k + 1).drop_last() =~= v@.take(k as int));
        if v[k] == x {
            assert(first_index(v@.take(k + 1), x) == k);
            proof {
                lemma_first_index_prefix(v@, x, k + 1);
            }
            return Some(k);
        }
        k += 1;
    }
    assert(v@.take(v@.len() as int) =~= v@);
    None
}

impl App {
    /// Takes the address book as read again after it changed on disk. While
    /// a form is open or a discard is asked, it only notes that a reload is
    /// waiting; otherwise, when the files hold what the application last
    /// read or wrote (its own saves), nothing changes, and else it shows the
    /// new cards as `reloaded` says.
    pub fn disk_changed(&mut self, book: AddressBook)
        requires
            old(self).wf(),
            forall|k: int| 0 <= k < book.cards@.len() ==> (#[trigger] book.cards@[k]).1.wf(),
        ensures
            final(self).wf(),
            !reloads_now(old(self)@) ==> final(self)@ == (AppView { reload_waiting: true, ..old(self)@ }),
            reloads_now(old(self)@) && file_views(book.files@) == old(self)@.files ==> final(self)@ == (AppView {
                reload_waiting: false,
                ..old(self)@
            }),
            reloads_now(old(self)@) && file_views(book.files@) != old(self)@.files ==> exists|ord: Seq<usize>|
                #[trigger] sorted_order(sort_keys(card_list(located_cards(book.cards@))), ord) && final(self)@
                    == reloaded(old(self)@, book, ord),
    {
        if self.mode == Mode::Edit || self.mode == Mode::Discard {
            self.reload_waiting = true;
            return;
        }
        if same_files(&book.files, &self.files) {
            self.reload_waiting = false;
            return;
        }
        let ghost s = self@;
        let ghost b = book;
        let old_selected = self.selected;
        let (loc, name) = if self.selected < self.visible.len() {
            let i = self.visible[self.selected];
            let e = &self.cards[i];
            (Some((e.0.0.clone(), e.0.1)), Some(e.1.display_name()))
        } else {
            (None, None)
        };
        self.cards = book.cards;
        self.files = book.files;
        self.skipped = book.skipped;
        self.reload_waiting = false;
        self.visible = Vec::new();
        self.selected = 0;
        let ord = self.resort();
        let at = match &loc {
            Some(l) => find_card(&self.cards, &l.0, l.1),
            None => None,
        };
        self.filter(at);
        let found = match at {
            Some(p) => find_index(&self.visible, p),
            None => None,
        };
        if found.is_none() {
            let last = if self.visible.len() > 0 {
                self.visible.len() - 1
            } else {
                0
            };
            self.selected = if old_selected <= last {
                old_selected
            } else {
                last
            };
        }
        let message = match (&name, at) {
            (Some(n), None) => {
                let mut text = chars_of(n.as_str());
                crate::text::push_all(&mut text, &chars_of(" removed on disk"));
                string_of(&text)
            },
            _ => "reloaded".to_string(),
        };
        self.status = Some(message);
        proof {
            lemma_first_index_bound(self@.visible, at);
            assert(self@ == reloaded(s, b, ord@));
        }
    }

    /// Whether a reload noted while a form was open is due now.
    pub fn wants_reload(&self) -> (r: bool)
        ensures
            r == (self@.reload_waiting && reloads_now(self@)),
    {
        self.reload_waiting && self.mode != Mode::Edit && self.mode != Mode::Discard
    }

    /// The note for the status bar, if any.
    pub fn status(&self) -> (r: Option<&str>)
        ensures
            match r {
                Some(m) => self@.status == Some(m@),
                None => self@.status is None,
            },
    {
        match &self.status {
            Some(m) => Some(m.as_str()),
            None => None,
        }
    }
}

proof fn lemma_first_index_found(v: Seq<usize>, x: usize)
    ensures
        first_index(v, x) >= 0 ==> v[first_index(v, x)] == x,
        v.contains(x) ==> first_index(v, x) >= 0,
    decreases v.len(),
{
    if v.len() > 0 {
        lemma_first_index_found(v.drop_last(), x);
        if v.contains(x) && !v.drop_last().contains(x) {
            let k = choose|k: int| 0 <= k < v.len() && v[k] == x;
            if k < v.len() - 1 {
                assert(v.drop_last()[k] == x);
            }
        }
        if v.drop_last().contains(x) {
            let k = choose|k: int| 0 <= k < v.drop_last().len() && v.drop_last()[k] == x;
            assert(v[k] == x);
        }
        lemma_first_index_lt(v.drop_last(), x);
    }
}

/// A valid application lists exactly the cards its query matches, in the
/// order `matching` gives (every card for an empty query); its selection is
/// in the list, or at the top when the list is empty; and while a form is
/// open or a discard is asked, a card is selected and the form has its nine
/// inputs with one of them focused.
pub proof fn lemma_listed(app: &App)
    requires
        app.wf(),
    ensures
        app@.visible == matching(card_list(app@.cards), app@.query),
        forall|k: int| 0 <= k < app@.visible.len() ==> (#[trigger] app@.visible[k]) < app@.cards.len(),
        app@.visible.len() > 0 ==> app@.selected < app@.visible.len(),
        app@.visible.len() == 0 ==> app@.selected == 0,
        (app@.mode == Mode::Edit || app@.mode == Mode::Discard) ==> app@.form is Some && app@.selected
            < app@.visible.len(),
        app@.form matches Some(f) ==> f.0.len() == 9 && f.1 < 9,
{
}

/// Filtering the list anew keeps the selection on the card it was on,
/// as long as that card is still listed.
pub proof fn lemma_filter_keeps_selection(s: AppView, c: usize)
    requires
        matching(card_list(s.cards), s.query).contains(c),
    ensures
        current(filtered(s, Some(c))) == Some(c),
{
    let vis = matching(card_list(s.cards), s.query);
    lemma_first_index_found(vis, c);
    lemma_first_index_lt(vis, c);
}

/// Typing a character into the search and then Backspace gives back the
/// query.
pub proof fn lemma_search_backspace_undoes_typing(s: AppView, c: char)
    requires
        s.mode == Mode::Search,
    ensures
        search_step(search_step(s, Key { code: KeyCode::Char(c), ctrl: false, alt: false }), Key {
            code: KeyCode::Backspace,
            ctrl: false,
            alt: false,
        }).query == s.query,
{
    let t = search_step(s, Key { code: KeyCode::Char(c), ctrl: false, alt: false });
    assert(t.query == s.query.push(c));
    assert(t.query.drop_last() =~= s.query);
}

/// Esc in a form that was not edited closes it without asking.
pub proof fn lemma_esc_on_unedited_form_closes(s: AppView, key: Key, t: AppView, req: Option<(Seq<char>, Seq<u8>)>)
    requires
        s.mode == Mode::Edit,
        s.form == Some(new_form(s.cards[s.visible[s.selected as int] as int].1)),
        key.code == KeyCode::Esc,
        app_step(s, key, t, req),
    ensures
        req is None,
        t == closed(AppView { pending: None, status: None, error: None, ..s }),
{
    lemma_unedited_form_keeps_card(s.cards[s.visible[s.selected as int] as int].1);
}

/// Saving a form that was not edited writes nothing: the card is stored
/// as it was and the form closes.
pub proof fn lemma_saving_unedited_form_writes_nothing(
    s: AppView,
    key: Key,
    t: AppView,
    req: Option<(Seq<char>, Seq<u8>)>,
)
    requires
        s.mode == Mode::Edit,
        s.form == Some(new_form(s.cards[s.visible[s.selected as int] as int].1)),
        key.code == KeyCode::Char('s'),
        key.ctrl,
        app_step(s, key, t, req),
    ensures
        req is None,
        t.mode == Mode::Browse,
        t.form is None,
{
    lemma_unedited_form_keeps_card(s.cards[s.visible[s.selected as int] as int].1);
}

} // verus!
