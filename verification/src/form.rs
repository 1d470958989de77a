//! The edit form: one input per editable field of a card, with the display
//! name kept in step with the name parts while the two agree.
use crate::card::line::{char_seqs, LineView};
use crate::card::{
    card_get, derived_display_name, derived_name, editable, field_name, is_removable, lemma_removes_empty,
    lemma_set_step, name_fields, no_cr, only_one, set_lines, set_removes, Card, Field,
};
use crate::input::{backspaced, deleted, moved_left, moved_right, typed, Input};
use crate::key::{Key, KeyCode};
use vstd::pervasive::VecAdditionalExecFns;
use vstd::prelude::*;

verus! {

/// The fields of the form, in order.
pub open spec fn form_fields() -> Seq<Field> {
    seq![
        Field::Prefixes,
        Field::Given,
        Field::Additional,
        Field::Family,
        Field::Suffixes,
        Field::DisplayName,
        Field::Company,
        Field::Department,
        Field::Note,
    ]
}

/// The labels of the form's fields, in order.
pub open spec fn form_labels() -> Seq<Seq<char>> {
    seq![
        "Prefix"@,
        "Given name"@,
        "Middle name"@,
        "Family name"@,
        "Suffix"@,
        "Display name"@,
        "Company"@,
        "Department"@,
        "Note"@,
    ]
}

/// The field at position `i` of the form, with its label.
pub fn form_field(i: usize) -> (r: (Field, &'static str))
    requires
        i < 9,
    ensures
        r.0 == form_fields()[i as int],
        r.1@ == form_labels()[i as int],
{
    match i {
        0 => (Field::Prefixes, "Prefix"),
        1 => (Field::Given, "Given name"),
        2 => (Field::Additional, "Middle name"),
        3 => (Field::Family, "Family name"),
        4 => (Field::Suffixes, "Suffix"),
        5 => (Field::DisplayName, "Display name"),
        6 => (Field::Company, "Company"),
        7 => (Field::Department, "Department"),
        _ => (Field::Note, "Note"),
    }
}

/// Where the display name stands in the form.
pub open spec fn display_index() -> int {
    5
}

/// Where the note stands in the form.
pub open spec fn note_index() -> int {
    8
}

/// The texts of some inputs.
pub open spec fn input_texts(v: Seq<(Seq<char>, nat)>) -> Seq<Seq<char>> {
    v.map_values(|x: (Seq<char>, nat)| x.0)
}

/// The display name that the form's name parts give.
pub open spec fn form_derived(v: Seq<(Seq<char>, nat)>) -> Seq<char> {
    derived_name(input_texts(v).take(5))
}

/// What a key does to the focused input: `None` for a key the input does
/// not take. Enter breaks a line in the note only; a character with Control
/// or Alt held is not typed.
pub open spec fn input_step(v: (Seq<char>, nat), key: Key, is_note: bool) -> Option<(Seq<char>, nat)> {
    match key.code {
        KeyCode::Left => Some(moved_left(v)),
        KeyCode::Right => Some(moved_right(v)),
        KeyCode::Backspace => Some(backspaced(v)),
        KeyCode::Delete => Some(deleted(v)),
        KeyCode::Enter => if is_note {
            Some(typed(v, '\n'))
        } else {
            None
        },
        KeyCode::Char(c) => if !key.ctrl && !key.alt {
            Some(typed(v, c))
        } else {
            None
        },
        _ => None,
    }
}

/// The inputs and link after input `edited` changed: editing the display
/// name links it when it equals the name derived from the parts; editing
/// another field rewrites a linked display name to the derived one.
pub open spec fn relinked(v: Seq<(Seq<char>, nat)>, edited: int, linked: bool) -> (Seq<(Seq<char>, nat)>, bool) {
    let derived = form_derived(v);
    if edited == display_index() {
        (v, v[display_index()].0 == derived)
    } else if linked && v[display_index()].0 != derived {
        (v.update(display_index(), (derived, derived.len())), linked)
    } else {
        (v, linked)
    }
}

/// The form after a key: Tab and Down move the focus to the next field,
/// BackTab and Up to the one before (round the end); other keys go to the
/// focused input, and a change of its text relinks the display name.
pub open spec fn form_step(s: (Seq<(Seq<char>, nat)>, nat, bool), key: Key) -> (Seq<(Seq<char>, nat)>, nat, bool) {
    let (v, focus, linked) = s;
    match key.code {
        KeyCode::Tab | KeyCode::Down => (v, ((focus + 1) % 9) as nat, linked),
        KeyCode::BackTab | KeyCode::Up => (v, ((focus + 8) % 9) as nat, linked),
        _ => match input_step(v[focus as int], key, focus == note_index()) {
            None => s,
            Some(x) => {
                let w = v.update(focus as int, x);
                if x.0 != v[focus as int].0 {
                    let (u, l) = relinked(w, focus as int, linked);
                    (u, focus, l)
                } else {
                    (w, focus, linked)
                }
            },
        },
    }
}

/// The card with every field of the form set to its input's text, field
/// by field in form order.
pub open spec fn applied(ls: Seq<LineView>, texts: Seq<Seq<char>>, n: nat) -> Seq<LineView>
    decreases n,
{
    if n == 0 {
        ls
    } else {
        set_lines(applied(ls, texts, (n - 1) as nat), form_fields()[n - 1], texts[n - 1])
    }
}

/// The form of a card when it opens: each field's text with the cursor at
/// its end, the first field focused, and the display name linked when it is
/// the one the name parts give.
pub open spec fn new_form(ls: Seq<LineView>) -> (Seq<(Seq<char>, nat)>, nat, bool) {
    (
        form_fields().map_values(|x: Field| (card_get(ls, x), card_get(ls, x).len())),
        0,
        card_get(ls, Field::DisplayName) == derived_name(name_fields().map_values(|x: Field| card_get(ls, x))),
    )
}

proof fn lemma_applied_unchanged(ls: Seq<LineView>, n: nat)
    requires
        n <= 9,
    ensures
        applied(ls, form_fields().map_values(|x: Field| card_get(ls, x)), n) == ls,
    decreases n,
{
    if n > 0 {
        lemma_applied_unchanged(ls, (n - 1) as nat);
    }
}

/// A form applied as it opened, with no edit, gives the card back
/// unchanged.
pub proof fn lemma_unedited_form_keeps_card(ls: Seq<LineView>)
    ensures
        applied(ls, input_texts(new_form(ls).0), 9) == ls,
{
    assert(input_texts(new_form(ls).0) =~= form_fields().map_values(|x: Field| card_get(ls, x)));
    lemma_applied_unchanged(ls, 9);
}

/// The fields of the form are nine different fields.
proof fn lemma_form_fields()
    ensures
        form_fields().len() == 9,
        forall|i: int, j: int| 0 <= i < 9 && 0 <= j < 9 && i != j ==> form_fields()[i] != form_fields()[j],
        form_fields()[6] == Field::Company,
        form_fields()[7] == Field::Department,
        form_fields()[8] == Field::Note,
        forall|i: int| 0 <= i < 6 ==> !is_removable(#[trigger] form_fields()[i]),
{
    let s = form_fields();
    assert(s[0] == Field::Prefixes && s[1] == Field::Given && s[2] == Field::Additional);
    assert(s[3] == Field::Family && s[4] == Field::Suffixes && s[5] == Field::DisplayName);
    assert(s[6] == Field::Company && s[7] == Field::Department && s[8] == Field::Note);
}

proof fn lemma_applied_prefix(ls: Seq<LineView>, texts: Seq<Seq<char>>, n: nat)
    requires
        editable(ls),
        texts.len() == 9,
        n <= 9,
        forall|i: int| 0 <= i < 9 ==> no_cr(#[trigger] texts[i]),
        texts[6].len() == 0 ==> only_one(ls, "ORG"@),
        texts[8].len() == 0 ==> only_one(ls, "NOTE"@),
    ensures
        editable(applied(ls, texts, n)),
        forall|i: int| 0 <= i < n ==> card_get(applied(ls, texts, n), #[trigger] form_fields()[i]) == texts[i],
        texts[6].len() == 0 ==> only_one(applied(ls, texts, n), "ORG"@),
        texts[8].len() == 0 ==> only_one(applied(ls, texts, n), "NOTE"@),
    decreases n,
{
    if n > 0 {
        let m = (n - 1) as nat;
        lemma_applied_prefix(ls, texts, m);
        lemma_form_fields();
        let s = applied(ls, texts, m);
        let f = form_fields()[m as int];
        let v = texts[m as int];
        assert(applied(ls, texts, n) == set_lines(s, f, v));
        reveal_strlit("ORG");
        reveal_strlit("NOTE");
        if card_get(s, f) != v && set_removes(s, f, v) {
            lemma_removes_empty(s, f, v);
            if m == 7 {
                assert(card_get(s, Field::Company) == texts[6]);
                assert(field_name(Field::Company) == field_name(Field::Department));
                assert(card_get(s, Field::Company).len() == 0);
            }
            assert(m == 6 || m == 7 || m == 8);
        }
        lemma_set_step(s, f, v);
        let r = set_lines(s, f, v);
        assert forall|i: int| 0 <= i < n implies card_get(r, #[trigger] form_fields()[i]) == texts[i] by {
            if i < m {
                assert(form_fields()[i] != f);
            }
        }
    }
}

/// Applying a form to an editable card (see `editable`) sets every field
/// to its input's text: each of the nine fields of the card it gives reads
/// back as its input, when no input holds a carriage return, and when the
/// company is emptied the card has at most one `ORG` line, and when the
/// note is emptied at most one `NOTE` line (else the next one would show).
pub proof fn lemma_apply_reads_back(ls: Seq<LineView>, texts: Seq<Seq<char>>)
    requires
        editable(ls),
        texts.len() == 9,
        forall|i: int| 0 <= i < 9 ==> no_cr(#[trigger] texts[i]),
        texts[6].len() == 0 ==> only_one(ls, "ORG"@),
        texts[8].len() == 0 ==> only_one(ls, "NOTE"@),
    ensures
        forall|i: int| 0 <= i < 9 ==> card_get(applied(ls, texts, 9), #[trigger] form_fields()[i]) == texts[i],
{
    lemma_applied_prefix(ls, texts, 9);
}

/// The edit form of a card.
pub struct Form {
    inputs: Vec<Input>,
    focus: usize,
    is_linked: bool,
}

/// The texts and cursors of some inputs.
pub open spec fn input_views(v: Seq<Input>) -> Seq<(Seq<char>, nat)> {
    v.map_values(|i: Input| i@)
}

impl View for Form {
    type V = (Seq<(Seq<char>, nat)>, nat, bool);

    /// The inputs, the focused one, and whether the display name follows the
    /// name parts.
    closed spec fn view(&self) -> (Seq<(Seq<char>, nat)>, nat, bool) {
        (input_views(self.inputs@), self.focus as nat, self.is_linked)
    }
}

/// Where a field stands in the form.
pub open spec fn field_pos(f: Field) -> int {
    match f {
        Field::Prefixes => 0,
        Field::Given => 1,
        Field::Additional => 2,
        Field::Family => 3,
        Field::Suffixes => 4,
        Field::DisplayName => 5,
        Field::Company => 6,
        Field::Department => 7,
        Field::Note => 8,
    }
}

fn index_of(field: Field) -> (i: usize)
    ensures
        i < 9,
        i == field_pos(field),
        form_fields()[i as int] == field,
{
    match field {
        Field::Prefixes => 0,
        Field::Given => 1,
        Field::Additional => 2,
        Field::Family => 3,
        Field::Suffixes => 4,
        Field::DisplayName => 5,
        Field::Company => 6,
        Field::Department => 7,
        Field::Note => 8,
    }
}

impl Form {
    /// A form has one input per field and focuses one of them.
    pub open spec fn wf(&self) -> bool {
        &&& self@.0.len() == 9
        &&& self@.1 < 9
    }

    /// The form of a card.
    pub fn new(card: &Card) -> (f: Self)
        ensures
            f.wf(),
            f@ == new_form(card@),
    {
        let ghost want = form_fields().map_values(|x: Field| (card_get(card@, x), card_get(card@, x).len()));
        assert(want.len() == 9);
        let mut inputs: Vec<Input> = Vec::new();
        let mut i: usize = 0;
        while i < 9
            invariant
                i <= 9,
                want.len() == 9,
                want == form_fields().map_values(|x: Field| (card_get(card@, x), card_get(card@, x).len())),
                input_views(inputs@) == want.take(i as int),
            decreases 9 - i,
        {
            let (field, _) = form_field(i);
            let ghost before = input_views(inputs@);
            let input = Input::new(card.get(field));
            inputs.push(input);
            assert(input_views(inputs@) =~= before.push(input@));
            assert(want.take(i + 1) =~= want.take(i as int).push(want[i as int]));
            i += 1;
        }
        assert(want.take(9) =~= want);
        let get = |f: Field| -> (r: String)
            ensures
                r@ == card_get(card@, f),
            { card.get(f) };
        let derived = derived_display_name(get);
        let display = card.display_name();
        let linked = display == derived;
        assert(name_fields().map_values(|x: Field| card_get(card@, x)) =~= seq![
            card_get(card@, Field::Prefixes),
            card_get(card@, Field::Given),
            card_get(card@, Field::Additional),
            card_get(card@, Field::Family),
            card_get(card@, Field::Suffixes),
        ]);
        Form { inputs, focus: 0, is_linked: linked }
    }

    /// The text of a field's input.
    fn text(&self, field: Field) -> (r: &str)
        requires
            self.wf(),
        ensures
            r@ == self@.0[field_pos(field)].0,
    {
        self.inputs[index_of(field)].text()
    }

    fn link_display_name(&mut self, edited: usize)
        requires
            old(self).wf(),
            edited < 9,
        ensures
            final(self).wf(),
            final(self)@ == (
                relinked(old(self)@.0, edited as int, old(self)@.2).0,
                old(self)@.1,
                relinked(old(self)@.0, edited as int, old(self)@.2).1,
            ),
    {
        let ghost v = self@.0;
        let get = |f: Field| -> (r: String)
            ensures
                r@ == self@.0[field_pos(f)].0,
            { self.text(f).to_owned() };
        let derived = derived_display_name(get);
        assert(input_texts(v).take(5) =~= seq![v[0].0, v[1].0, v[2].0, v[3].0, v[4].0]);
        assert(derived@ == form_derived(v));
        let current = self.text(Field::DisplayName).to_owned();
        if edited == 5 {
            self.is_linked = current == derived;
        } else if self.is_linked && !(current == derived) {
            let mut x = Input::new(String::new());
            self.inputs.set_and_swap(5, &mut x);
            x.replace(derived);
            self.inputs.set_and_swap(5, &mut x);
            assert(input_views(self.inputs@) =~= v.update(5, (form_derived(v), form_derived(v).len())));
        }
    }

    /// Handles a key: Tab and Down focus the next field, BackTab and Up the
    /// one before; arrows, Backspace, Delete and typed characters edit the
    /// focused input (Enter only in the note); a change of a text keeps a
    /// linked display name in step with the name parts.
    pub fn handle_key(&mut self, key: Key)
        requires
            old(self).wf(),
        ensures
            final(self).wf(),
            final(self)@ == form_step(old(self)@, key),
    {
        let focus = self.focus;
        match key.code {
            KeyCode::Tab | KeyCode::Down => {
                self.focus = (focus + 1) % 9;
                return;
            },
            KeyCode::BackTab | KeyCode::Up => {
                self.focus = (focus + 8) % 9;
                return;
            },
            _ => {},
        }
        let is_note = focus == 8;
        let handled = match key.code {
            KeyCode::Left | KeyCode::Right | KeyCode::Backspace | KeyCode::Delete => true,
            KeyCode::Enter => is_note,
            KeyCode::Char(_) => !key.ctrl && !key.alt,
            _ => false,
        };
        if !handled {
            return;
        }
        let ghost v = self@.0;
        let mut x = Input::new(String::new());
        self.inputs.set_and_swap(focus, &mut x);
        assert(x@ == v[focus as int]);
        let before = x.text().to_owned();
        match key.code {
            KeyCode::Left => x.left(),
            KeyCode::Right => x.right(),
            KeyCode::Backspace => x.backspace(),
            KeyCode::Delete => x.delete(),
            KeyCode::Enter => x.insert('\n'),
            KeyCode::Char(c) => x.insert(c),
            _ => {},
        }
        let after = x.text().to_owned();
        let changed = !(after == before);
        let ghost xv = x@;
        assert(input_step(v[focus as int], key, focus == 8) == Some(xv));
        self.inputs.set_and_swap(focus, &mut x);
        assert(input_views(self.inputs@) =~= v.update(focus as int, xv));
        if changed {
            self.link_display_name(focus);
        }
    }

    /// The card with every field set to the form's text for it, only the
    /// lines of changed fields rewritten.
    pub fn apply(&self, card: &Card) -> (r: Card)
        requires
            self.wf(),
            card.wf(),
        ensures
            r@ == applied(card@, input_texts(self@.0), 9),
            r.wf(),
    {
        let mut c = card.clone();
        let mut i: usize = 0;
        while i < 9
            invariant
                self.inputs@.len() == 9,
                i <= 9,
                c.wf(),
                c@ == applied(card@, input_texts(self@.0), i as nat),
            decreases 9 - i,
        {
            let (field, _) = form_field(i);
            c.set(field, self.inputs[i].text());
            i += 1;
        }
        c
    }

    /// The inputs, in form order.
    pub fn inputs(&self) -> (r: &[Input])
        ensures
            input_views(r@) == self@.0,
    {
        self.inputs.as_slice()
    }

    /// The position of the focused input.
    pub fn focus(&self) -> (r: usize)
        ensures
            r == self@.1,
    {
        self.focus
    }

    /// Whether the display name follows the name parts.
    pub fn is_linked(&self) -> (r: bool)
        ensures
            r == self@.2,
    {
        self.is_linked
    }
}

} // verus!
