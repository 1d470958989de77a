//! A vCard as its content lines, with reading and line-preserving editing.

pub mod bday;
pub mod label;
pub mod line;

pub use bday::Birthday;
pub use line::ContentLine;

use vstd::prelude::*;

use crate::text::{chars_of, eq_ic, eq_ignore_case, lower_code, no_newline, string_of};
use line::{
    built_line, char_seqs, eol_of, escape_text, logical_text, lines_bytes, parse_lines,
    split_unescaped_spec, texts, unescape_text, LineView,
};

verus! {

/// Why bytes are not a single card.
#[derive(Debug, Clone, Copy, PartialEq, Eq, Structural)]
pub enum Defect {
    NoBegin,
    NoEnd,
    MultipleCards,
    InvalidUtf8,
}

impl Defect {
    /// The reason shown to the user.
    pub fn message(&self) -> (m: &'static str)
        ensures
            m@ == defect_message(*self),
    {
        match self {
            Defect::NoBegin => "no BEGIN:VCARD",
            Defect::NoEnd => "no END:VCARD",
            Defect::MultipleCards => "more than one VCARD",
            Defect::InvalidUtf8 => "invalid UTF-8",
        }
    }
}

/// The reason shown for each defect.
pub open spec fn defect_message(d: Defect) -> Seq<char> {
    match d {
        Defect::NoBegin => "no BEGIN:VCARD"@,
        Defect::NoEnd => "no END:VCARD"@,
        Defect::MultipleCards => "more than one VCARD"@,
        Defect::InvalidUtf8 => "invalid UTF-8"@,
    }
}

/// A line `name:value` without group or parameters, ignoring ASCII case.
pub open spec fn line_is(l: LineView, name: Seq<char>, value: Seq<char>) -> bool {
    l.group is None && l.params.len() == 0 && eq_ic(l.name, name) && eq_ic(l.value, value)
}

pub open spec fn is_begin(l: LineView) -> bool {
    line_is(l, "BEGIN"@, "VCARD"@)
}

pub open spec fn is_end(l: LineView) -> bool {
    line_is(l, "END"@, "VCARD"@)
}

/// A line of only ASCII whitespace.
pub open spec fn is_blank(l: LineView) -> bool {
    forall|i: int| 0 <= i < l.raw.len() ==> line::is_ascii_space(#[trigger] l.raw[i])
}

/// `i` is the first line that is not blank.
pub open spec fn first_content(ls: Seq<LineView>, i: int) -> bool {
    0 <= i < ls.len() && !is_blank(ls[i]) && forall|j: int| 0 <= j < i ==> is_blank(#[trigger] ls[j])
}

/// `j` is the last line that is not blank.
pub open spec fn last_content(ls: Seq<LineView>, j: int) -> bool {
    0 <= j < ls.len() && !is_blank(ls[j]) && forall|k: int| j < k < ls.len() ==> is_blank(#[trigger] ls[k])
}

/// Number of `BEGIN:VCARD` lines.
pub open spec fn count_begin(ls: Seq<LineView>) -> nat
    decreases ls.len(),
{
    if ls.len() == 0 {
        0
    } else {
        count_begin(ls.drop_last()) + if is_begin(ls.last()) {
            1nat
        } else {
            0nat
        }
    }
}

/// What bytes read as: the card's lines, or why they are not one card.
/// The first line that is not blank must be `BEGIN:VCARD`, no other line may
/// be `BEGIN:VCARD`, and the last line that is not blank, after the first,
/// must be `END:VCARD`.
pub open spec fn parse_card(b: Seq<u8>) -> Result<Seq<LineView>, Defect> {
    match parse_lines(b) {
        None => Err(Defect::InvalidUtf8),
        Some(ls) => if !exists|i: int| first_content(ls, i) && is_begin(ls[i]) {
            Err(Defect::NoBegin)
        } else if count_begin(ls) > 1 {
            Err(Defect::MultipleCards)
        } else if !exists|j: int|
            #![trigger last_content(ls, j)]
            last_content(ls, j) && is_end(ls[j]) && exists|i: int| first_content(ls, i) && i < j {
            Err(Defect::NoEnd)
        } else {
            Ok(ls)
        },
    }
}

/// A card's lines: each as parsing yields it, with a `BEGIN:VCARD` and an
/// `END:VCARD` line.
pub open spec fn card_wf(ls: Seq<LineView>) -> bool {
    &&& forall|k: int| 0 <= k < ls.len() ==> (#[trigger] ls[k]).wf()
    &&& exists|i: int| 0 <= i < ls.len() && is_begin(ls[i])
    &&& exists|j: int| 0 <= j < ls.len() && is_end(ls[j])
}

/// One contact: the content lines of a `BEGIN:VCARD` … `END:VCARD` block,
/// each kept with its original bytes.
#[derive(Debug, PartialEq, Eq)]
pub struct Card {
    lines: Vec<ContentLine>,
}

impl View for Card {
    type V = Seq<LineView>;

    closed spec fn view(&self) -> Seq<LineView> {
        self.lines@.map_values(|l: ContentLine| l@)
    }
}

impl Clone for Card {
    fn clone(&self) -> (r: Self)
        ensures
            r@ == self@,
    {
        let mut lines: Vec<ContentLine> = Vec::new();
        let mut i: usize = 0;
        while i < self.lines.len()
            invariant
                i <= self.lines@.len(),
                lines@.map_values(|l: ContentLine| l@) == self@.take(i as int),
            decreases self.lines.len() - i,
        {
            let ghost before = lines@.map_values(|l: ContentLine| l@);
            let l = self.lines[i].clone();
            lines.push(l);
            assert(lines@.map_values(|l: ContentLine| l@) =~= before.push(l@));
            assert(self@.take(i + 1) =~= self@.take(i as int).push(self@[i as int]));
            i += 1;
        }
        assert(self@.take(self@.len() as int) =~= self@);
        Card { lines }
    }
}

impl Card {
    pub open spec fn wf(&self) -> bool {
        card_wf(self@)
    }

    /// Whether two cards have the same lines.
    pub fn same_lines(&self, other: &Card) -> (r: bool)
        requires
            self.wf(),
            other.wf(),
        ensures
            r == (self@ == other@),
    {
        if self.lines.len() != other.lines.len() {
            return false;
        }
        let mut i: usize = 0;
        while i < self.lines.len()
            invariant
                self.wf(),
                other.wf(),
                self.lines@.len() == other.lines@.len(),
                i <= self.lines@.len(),
                forall|k: int| 0 <= k < i ==> self@[k] == other@[k],
            decreases self.lines.len() - i,
        {
            assert(self@[i as int].wf() && other@[i as int].wf());
            if !crate::text::same_bytes(self.lines[i].raw(), other.lines[i].raw()) {
                return false;
            }
            i += 1;
        }
        assert(self@ =~= other@);
        true
    }

    /// Reads one card.
    pub fn parse(bytes: &[u8]) -> (r: Result<Self, Defect>)
        ensures
            match r {
                Ok(c) => parse_card(bytes@) == Ok::<Seq<LineView>, Defect>(c@) && c.wf(),
                Err(d) => parse_card(bytes@) == Err::<Seq<LineView>, Defect>(d),
            },
    {
        let lines = match line::split(bytes) {
            Some(lines) => lines,
            None => return Err(Defect::InvalidUtf8),
        };
        let ghost ls = lines@.map_values(|l: ContentLine| l@);
        let n = lines.len();
        // first line that is not blank
        let mut i: usize = 0;
        while i < n && lines[i].is_blank()
            invariant
                n == ls.len(),
                ls == lines@.map_values(|l: ContentLine| l@),
                i <= n,
                forall|j: int| 0 <= j < i ==> is_blank(#[trigger] ls[j]),
            decreases n - i,
        {
            i += 1;
        }
        if i == n || !lines[i].is("BEGIN", "VCARD") {
            proof {
                if exists|k: int| first_content(ls, k) && is_begin(ls[k]) {
                    let k = choose|k: int| first_content(ls, k) && is_begin(ls[k]);
                    if k < i {
                        assert(is_blank(ls[k]));
                    } else if k > i {
                        assert(!is_blank(ls[i as int]));
                    }
                }
            }
            return Err(Defect::NoBegin);
        }
        assert(first_content(ls, i as int) && is_begin(ls[i as int]));
        // count BEGIN:VCARD lines
        let mut count: usize = 0;
        let mut k: usize = 0;
        while k < n
            invariant
                n == ls.len(),
                ls == lines@.map_values(|l: ContentLine| l@),
                k <= n,
                count == count_begin(ls.take(k as int)),
                count <= k,
            decreases n - k,
        {
            assert(ls.take(k + 1).drop_last() == ls.take(k as int));
            if lines[k].is("BEGIN", "VCARD") {
                count += 1;
            }
            k += 1;
        }
        assert(ls.take(n as int) == ls);
        if count > 1 {
            return Err(Defect::MultipleCards);
        }
        // last line that is not blank
        let mut j: usize = n;
        while j > i + 1 && lines[j - 1].is_blank()
            invariant
                n == ls.len(),
                ls == lines@.map_values(|l: ContentLine| l@),
                i + 1 <= j <= n,
                forall|m: int| j <= m < n ==> is_blank(#[trigger] ls[m]),
            decreases j,
        {
            j -= 1;
        }
        if j == i + 1 || !lines[j - 1].is("END", "VCARD") {
            proof {
                if exists|jj: int|
                    #![trigger last_content(ls, jj)]
                    last_content(ls, jj) && is_end(ls[jj]) && exists|ii: int| first_content(ls, ii) && ii < jj {
                    let jj = choose|jj: int|
                        #![trigger last_content(ls, jj)]
                        last_content(ls, jj) && is_end(ls[jj]) && exists|ii: int| first_content(ls, ii) && ii < jj;
                    let ii = choose|ii: int| first_content(ls, ii) && ii < jj;
                    assert(ii == i) by {
                        if ii < i {
                            assert(is_blank(ls[ii]));
                        } else if ii > i {
                            assert(!is_blank(ls[i as int]));
                        }
                    }
                    if jj < j - 1 {
                        if j - 1 > i {
                            assert(is_blank(ls[j - 1]) || !is_blank(ls[j - 1]));
                            assert(!is_blank(ls[j - 1]));
                        }
                    } else if jj > j - 1 {
                        assert(is_blank(ls[jj]));
                    }
                }
            }
            return Err(Defect::NoEnd);
        }
        assert(last_content(ls, j - 1) && is_end(ls[j - 1]));
        assert(first_content(ls, i as int) && (i as int) < j - 1);
        let card = Card { lines };
        assert(card@ == ls);
        Ok(card)
    }

    /// The card's bytes: its lines' bytes, in order.
    pub fn to_bytes(&self) -> (b: Vec<u8>)
        ensures
            b@ == lines_bytes(self@),
    {
        let mut out: Vec<u8> = Vec::new();
        let mut i: usize = 0;
        while i < self.lines.len()
            invariant
                i <= self.lines@.len(),
                out@ == lines_bytes(self@.take(i as int)),
            decreases self.lines.len() - i,
        {
            let raw = self.lines[i].raw();
            let mut k: usize = 0;
            let ghost before = out@;
            while k < raw.len()
                invariant
                    k <= raw@.len(),
                    out@ == before + raw@.take(k as int),
                decreases raw.len() - k,
            {
                out.push(raw[k]);
                assert(raw@.take(k + 1) == raw@.take(k as int).push(raw@[k as int]));
                k += 1;
            }
            assert(raw@.take(raw@.len() as int) == raw@);
            proof {
                let t = self@.take(i + 1);
                assert(t.map_values(|l: LineView| l.raw) == self@.take(i as int).map_values(
                    |l: LineView| l.raw,
                ).push(raw@));
                self@.take(i as int).map_values(|l: LineView| l.raw).lemma_flatten_push(raw@);
            }
            i += 1;
        }
        assert(self@.take(self.lines@.len() as int) == self@);
        out
    }

    /// The card's content lines.
    pub fn lines(&self) -> (l: &[ContentLine])
        ensures
            l@.map_values(|x: ContentLine| x@) == self@,
    {
        self.lines.as_slice()
    }
}

/// Writing a card that was read gives back the bytes it was read from.
pub proof fn lemma_card_roundtrip(b: Seq<u8>)
    requires
        parse_card(b) is Ok,
    ensures
        lines_bytes(parse_card(b)->Ok_0) == b,
{
    line::lemma_lines_roundtrip(b);
}


/// A name part, the display name, the organization's parts, or the note.
#[derive(Debug, Clone, Copy, PartialEq, Eq, Structural)]
pub enum Field {
    Prefixes,
    Given,
    Additional,
    Family,
    Suffixes,
    DisplayName,
    Company,
    Department,
    Note,
}

/// The property a field is stored in.
pub open spec fn field_name(f: Field) -> Seq<char> {
    match f {
        Field::DisplayName => "FN"@,
        Field::Company | Field::Department => "ORG"@,
        Field::Note => "NOTE"@,
        _ => "N"@,
    }
}

/// The component of that property's value a field is, if the value has
/// components.
pub open spec fn field_component(f: Field) -> Option<int> {
    match f {
        Field::Family => Some(0),
        Field::Given => Some(1),
        Field::Additional => Some(2),
        Field::Prefixes => Some(3),
        Field::Suffixes => Some(4),
        Field::DisplayName => None,
        Field::Company => Some(0),
        Field::Department => Some(1),
        Field::Note => None,
    }
}

/// Each field reads the vCard property it stands for: the display name is
/// `FN` and the note `NOTE`, unescaped; the company and department are
/// components 0 and 1 of `ORG`; the name parts are the components of `N`
/// in the order vCard gives them: family name, given name, additional
/// names, honorific prefixes, honorific suffixes.
pub proof fn lemma_field_properties(ls: Seq<LineView>)
    ensures
        card_get(ls, Field::Family) == component(value_of(ls, "N"@), 0),
        card_get(ls, Field::Given) == component(value_of(ls, "N"@), 1),
        card_get(ls, Field::Additional) == component(value_of(ls, "N"@), 2),
        card_get(ls, Field::Prefixes) == component(value_of(ls, "N"@), 3),
        card_get(ls, Field::Suffixes) == component(value_of(ls, "N"@), 4),
        card_get(ls, Field::Company) == component(value_of(ls, "ORG"@), 0),
        card_get(ls, Field::Department) == component(value_of(ls, "ORG"@), 1),
        card_get(ls, Field::DisplayName) == unescape_text(value_of(ls, "FN"@)),
        card_get(ls, Field::Note) == unescape_text(value_of(ls, "NOTE"@)),
{
}

impl Field {
    fn property(self) -> (r: (&'static str, Option<usize>))
        ensures
            r.0@ == field_name(self),
            match r.1 {
                Some(i) => field_component(self) == Some(i as int),
                None => field_component(self) is None,
            },
    {
        match self {
            Field::Family => ("N", Some(0)),
            Field::Given => ("N", Some(1)),
            Field::Additional => ("N", Some(2)),
            Field::Prefixes => ("N", Some(3)),
            Field::Suffixes => ("N", Some(4)),
            Field::DisplayName => ("FN", None),
            Field::Company => ("ORG", Some(0)),
            Field::Department => ("ORG", Some(1)),
            Field::Note => ("NOTE", None),
        }
    }
}

/// `i` is the first line named `name` (ignoring ASCII case).
pub open spec fn first_named(ls: Seq<LineView>, name: Seq<char>, i: int) -> bool {
    0 <= i < ls.len() && eq_ic(ls[i].name, name) && forall|j: int|
        0 <= j < i ==> !eq_ic(#[trigger] ls[j].name, name)
}

/// The index of the first line named `name`.
pub open spec fn named_index(ls: Seq<LineView>, name: Seq<char>) -> Option<int> {
    if exists|i: int| first_named(ls, name, i) {
        Some(choose|i: int| first_named(ls, name, i))
    } else {
        None
    }
}

/// The raw value of the first line named `name`, or empty.
pub open spec fn value_of(ls: Seq<LineView>, name: Seq<char>) -> Seq<char> {
    match named_index(ls, name) {
        Some(i) => ls[i].value,
        None => Seq::<char>::empty(),
    }
}

/// The unescaped component `i` of a value, or empty.
pub open spec fn component(value: Seq<char>, i: int) -> Seq<char> {
    let parts = split_unescaped_spec(value, ';');
    if 0 <= i < parts.len() {
        unescape_text(parts[i])
    } else {
        Seq::<char>::empty()
    }
}

/// What a field reads on a card.
pub open spec fn card_get(ls: Seq<LineView>, f: Field) -> Seq<char> {
    let v = value_of(ls, field_name(f));
    match field_component(f) {
        None => unescape_text(v),
        Some(i) => component(v, i),
    }
}

/// Texts joined with a separator.
pub open spec fn join(parts: Seq<Seq<char>>, sep: Seq<char>) -> Seq<char>
    decreases parts.len(),
{
    if parts.len() == 0 {
        Seq::<char>::empty()
    } else if parts.len() == 1 {
        parts[0]
    } else {
        join(parts.drop_last(), sep) + sep + parts.last()
    }
}

/// Joined texts without line feeds hold no line feed.
pub proof fn lemma_join_no_newline(parts: Seq<Seq<char>>, sep: Seq<char>)
    requires
        no_newline(sep),
        forall|k: int| 0 <= k < parts.len() ==> no_newline(#[trigger] parts[k]),
    ensures
        no_newline(join(parts, sep)),
    decreases parts.len(),
{
    if parts.len() > 1 {
        lemma_join_no_newline(parts.drop_last(), sep);
        crate::text::lemma_no_newline_concat(join(parts.drop_last(), sep), sep);
        crate::text::lemma_no_newline_concat(join(parts.drop_last(), sep) + sep, parts.last());
    }
}

/// Texts joined with a separator.
pub fn join_texts(parts: &Vec<Vec<char>>, sep: &[char]) -> (r: Vec<char>)
    ensures
        r@ == join(char_seqs(parts@), sep@),
{
    let mut out: Vec<char> = Vec::new();
    let mut i: usize = 0;
    while i < parts.len()
        invariant
            i <= parts@.len(),
            out@ == join(char_seqs(parts@).take(i as int), sep@),
        decreases parts.len() - i,
    {
        let ghost t = char_seqs(parts@).take(i + 1);
        assert(t.drop_last() == char_seqs(parts@).take(i as int));
        if i > 0 {
            crate::text::push_all(&mut out, sep);
        } else {
            assert(out@ == Seq::<char>::empty());
        }
        crate::text::push_all(&mut out, parts[i].as_slice());
        assert(out@ == join(t, sep@)) by {
            if i == 0 {
                assert(t.len() == 1);
                assert(out@ == Seq::<char>::empty() + parts@[0]@);
            }
        }
        i += 1;
    }
    assert(char_seqs(parts@).take(parts@.len() as int) == char_seqs(parts@));
    out
}

impl Card {
    /// The index of the first line named `name`, ignoring ASCII case.
    fn position_of(&self, name: &str) -> (r: Option<usize>)
        ensures
            match r {
                Some(i) => first_named(self@, name@, i as int),
                None => !exists|i: int| first_named(self@, name@, i),
            },
    {
        let target = chars_of(name);
        let mut i: usize = 0;
        while i < self.lines.len()
            invariant
                i <= self.lines@.len(),
                target@ == name@,
                forall|j: int| 0 <= j < i ==> !eq_ic(#[trigger] self@[j].name, name@),
            decreases self.lines.len() - i,
        {
            let n = chars_of(self.lines[i].name());
            if eq_ignore_case(&n, &target) {
                return Some(i);
            }
            i += 1;
        }
        proof {
            if exists|k: int| first_named(self@, name@, k) {
                let k = choose|k: int| first_named(self@, name@, k);
                assert(!eq_ic(self@[k].name, name@));
            }
        }
        None
    }

    /// The raw value of the first line named `name`, or empty.
    fn value_named(&self, name: &str) -> (v: Vec<char>)
        ensures
            v@ == value_of(self@, name@),
    {
        match self.position_of(name) {
            Some(i) => {
                proof {
                    let k = choose|k: int| first_named(self@, name@, k);
                    assert(k == i) by {
                        if k < i {
                            assert(!eq_ic(self@[k].name, name@));
                        } else if k > i {
                            assert(!eq_ic(self@[i as int].name, name@));
                        }
                    }
                }
                chars_of(self.lines[i].value())
            },
            None => Vec::new(),
        }
    }

    /// What a field reads.
    pub fn get(&self, field: Field) -> (r: String)
        ensures
            r@ == card_get(self@, field),
    {
        let (name, comp) = field.property();
        let value = self.value_named(name);
        match comp {
            None => string_of(&line::unescape(&value)),
            Some(i) => {
                let parts = line::split_unescaped(&value, ';');
                if i < parts.len() {
                    string_of(&line::unescape(&parts[i]))
                } else {
                    String::new()
                }
            },
        }
    }
}


/// `i` is the first `BEGIN:VCARD` line.
pub open spec fn first_begin(ls: Seq<LineView>, i: int) -> bool {
    0 <= i < ls.len() && is_begin(ls[i]) && forall|j: int| 0 <= j < i ==> !is_begin(#[trigger] ls[j])
}

/// `j` is the last `END:VCARD` line.
pub open spec fn last_end(ls: Seq<LineView>, j: int) -> bool {
    0 <= j < ls.len() && is_end(ls[j]) && forall|k: int| j < k < ls.len() ==> !is_end(#[trigger] ls[k])
}

/// The lines with a new line `name;params:raw` before the last
/// `END:VCARD`, ending like the first `BEGIN:VCARD` line.
pub open spec fn inserted(
    ls: Seq<LineView>,
    name: Seq<char>,
    params: Seq<Seq<char>>,
    raw: Seq<char>,
) -> Seq<LineView> {
    let e = choose|j: int| last_end(ls, j);
    let b = choose|i: int| first_begin(ls, i);
    ls.insert(e, built_line(logical_text(None, name, params, raw), eol_of(ls[b].raw)))
}

/// A field that is a part of the structured name.
pub open spec fn is_name_part(f: Field) -> bool {
    f == Field::Prefixes || f == Field::Given || f == Field::Additional || f == Field::Family
        || f == Field::Suffixes
}

/// A field whose line goes away when it becomes empty.
pub open spec fn is_removable(f: Field) -> bool {
    f == Field::Company || f == Field::Department || f == Field::Note
}

/// Components padded with empty ones up to `len`.
pub open spec fn resized(parts: Seq<Seq<char>>, len: int) -> Seq<Seq<char>> {
    if parts.len() < len {
        parts + Seq::new((len - parts.len()) as nat, |k: int| Seq::<char>::empty())
    } else {
        parts
    }
}

/// Number of components a field's property keeps: five for the
/// structured name, otherwise up to the field's component.
pub open spec fn component_count(f: Field, i: int) -> int {
    if is_name_part(f) {
        5
    } else {
        i + 1
    }
}

/// The components of a field's property with component `i` set to the
/// escaped value.
pub open spec fn new_components(ls: Seq<LineView>, f: Field, i: int, value: Seq<char>) -> Seq<Seq<char>> {
    resized(split_unescaped_spec(value_of(ls, field_name(f)), ';'), component_count(f, i)).update(
        i,
        escape_text(value),
    )
}

/// The new raw value of a field's property, and whether it is empty.
pub open spec fn set_raw(ls: Seq<LineView>, f: Field, value: Seq<char>) -> (Seq<char>, bool) {
    match field_component(f) {
        None => (escape_text(value), value.len() == 0),
        Some(i) => {
            let parts = new_components(ls, f, i, value);
            (join(parts, seq![';']), forall|k: int| 0 <= k < parts.len() ==> (#[trigger] parts[k]).len() == 0)
        },
    }
}

/// The lines after setting a field: unchanged when the field already reads
/// `value`; otherwise only the field's property line changes: it is
/// rewritten with the new raw value, removed when an organization part or
/// the note becomes empty, or added before `END:VCARD` when missing.
pub open spec fn set_lines(ls: Seq<LineView>, f: Field, value: Seq<char>) -> Seq<LineView> {
    if card_get(ls, f) == value {
        ls
    } else {
        let (raw, is_empty) = set_raw(ls, f, value);
        match named_index(ls, field_name(f)) {
            Some(k) => if is_empty && is_removable(f) {
                ls.remove(k)
            } else {
                ls.update(
                    k,
                    built_line(logical_text(ls[k].group, ls[k].name, ls[k].params, raw), eol_of(ls[k].raw)),
                )
            },
            None => inserted(ls, field_name(f), Seq::empty(), raw),
        }
    }
}

/// `r` is `ls` with one line rewritten, removed or added, every other line
/// kept as it was, in order.
pub open spec fn one_line_changed(ls: Seq<LineView>, r: Seq<LineView>) -> bool {
    ||| r == ls
    ||| exists|k: int| 0 <= k < ls.len() && r.len() == ls.len() && #[trigger] r.remove(k) == ls.remove(k)
    ||| exists|k: int| 0 <= k < ls.len() && r == #[trigger] ls.remove(k)
    ||| exists|k: int| 0 <= k <= ls.len() && r.len() == ls.len() + 1 && #[trigger] r.remove(k) == ls
}

/// Setting a field touches only the line that holds it: every other line
/// of the card, and so its bytes, stays as it was.
pub proof fn lemma_set_keeps_other_lines(ls: Seq<LineView>, f: Field, v: Seq<char>)
    requires
        card_wf(ls),
    ensures
        one_line_changed(ls, set_lines(ls, f, v)),
{
    let r = set_lines(ls, f, v);
    if card_get(ls, f) != v {
        let (raw, is_empty) = set_raw(ls, f, v);
        match named_index(ls, field_name(f)) {
            Some(k) => {
                let i = choose|i: int| first_named(ls, field_name(f), i);
                assert(first_named(ls, field_name(f), i));
                if is_empty && is_removable(f) {
                    assert(r == ls.remove(k));
                } else {
                    assert(r.remove(k) =~= ls.remove(k));
                }
            },
            None => {
                let e = choose|j: int| last_end(ls, j);
                assert(exists|j: int| last_end(ls, j)) by {
                    let j = choose|j: int| 0 <= j < ls.len() && is_end(ls[j]);
                    lemma_last_end_exists(ls, j);
                }
                assert(last_end(ls, e));
                assert(r.remove(e) =~= ls);
            },
        }
    }
}

proof fn lemma_last_end_exists(ls: Seq<LineView>, j: int)
    requires
        0 <= j < ls.len(),
        is_end(ls[j]),
    ensures
        exists|e: int| last_end(ls, e),
    decreases ls.len() - j,
{
    if exists|k: int| j < k < ls.len() && is_end(#[trigger] ls[k]) {
        let k = choose|k: int| j < k < ls.len() && is_end(#[trigger] ls[k]);
        lemma_last_end_exists(ls, k);
    } else {
        assert(last_end(ls, j));
    }
}

/// No character of `s` is a carriage return.
pub open spec fn no_cr(s: Seq<char>) -> bool {
    forall|k: int| 0 <= k < s.len() ==> s[k] != '\r'
}

/// A line of field `f` that a new value can be written into and read back
/// from: its text has a colon outside double quotes, its group, name and
/// parameters hold no carriage return, and it ends in a line break. For a
/// field that is one component of the value (a name part, the company or
/// the department), the other components are kept, so the value must also
/// hold no carriage return, and a lone backslash at its end, which would
/// escape a separator written after it, may stand only in the component
/// being replaced (see `kept_clean`).
pub open spec fn rewritable(l: LineView, f: Field) -> bool {
    &&& line::separated(line::line_text(l))
    &&& no_cr(line::logical_text(l.group, l.name, l.params, Seq::empty()))
    &&& eol_of(l.raw).len() > 0
    &&& field_component(f) is Some ==> no_cr(l.value) && kept_clean(l.value, f)
}

/// Whether the components of `value` that setting component field `f`
/// keeps end clean: the value does not end in a lone backslash, or its last
/// component is the one replaced, with nothing written after it.
pub open spec fn kept_clean(value: Seq<char>, f: Field) -> bool {
    let i = field_component(f)->0;
    ||| !line::esc_before(value, value.len() as int)
    ||| split_unescaped_spec(value, ';').len() == i + 1 && component_count(f, i) <= i + 1
}

/// Whether setting field `f` to `v` removes the field's line: an
/// organization part or the note that becomes empty.
pub open spec fn set_removes(ls: Seq<LineView>, f: Field, v: Seq<char>) -> bool {
    set_raw(ls, f, v).1 && is_removable(f)
}

/// No line but the one at `k` has the name.
pub open spec fn only_named(ls: Seq<LineView>, name: Seq<char>, k: int) -> bool {
    forall|j: int| 0 <= j < ls.len() && j != k ==> !eq_ic(#[trigger] ls[j].name, name)
}

proof fn lemma_join_first(parts: Seq<Seq<char>>, sep: Seq<char>)
    requires
        parts.len() >= 2,
    ensures
        join(parts, sep) == parts[0] + sep + join(parts.drop_first(), sep),
    decreases parts.len(),
{
    let dl = parts.drop_last();
    let df = parts.drop_first();
    if parts.len() == 2 {
        assert(dl.len() == 1 && dl[0] == parts[0]);
        assert(df.len() == 1 && df[0] == parts[1]);
        assert(join(dl, sep) == parts[0]);
        assert(join(df, sep) == parts[1]);
    } else {
        lemma_join_first(dl, sep);
        assert(df.drop_last() =~= dl.drop_first());
        assert(df.last() == parts.last());
        assert(dl[0] == parts[0]);
        assert(join(df, sep) == join(df.drop_last(), sep) + sep + df.last());
        assert(join(parts, sep) == join(dl, sep) + sep + parts.last());
        assert(join(parts, sep) =~= parts[0] + sep + join(df, sep));
    }
}

proof fn lemma_scan_joins(s: Seq<char>, sep: char, i: int, start: int, esc: bool, parts: Seq<Seq<char>>)
    requires
        0 <= start <= i <= s.len(),
        parts.len() == 0 ==> start == 0,
        parts.len() > 0 ==> join(parts, seq![sep]) + seq![sep] == s.take(start),
    ensures
        join(line::split_scan(s, sep, i, start, esc, parts), seq![sep]) == s,
    decreases s.len() - i,
{
    if i >= s.len() {
        let x = s.subrange(start, s.len() as int);
        let r = parts.push(x);
        if parts.len() == 0 {
            assert(x =~= s);
        } else {
            assert(r.drop_last() =~= parts);
            assert(join(r, seq![sep]) == join(parts, seq![sep]) + seq![sep] + x);
            assert(s.take(start) + x =~= s);
        }
    } else if esc {
        lemma_scan_joins(s, sep, i + 1, start, false, parts);
    } else if s[i] == '\\' {
        lemma_scan_joins(s, sep, i + 1, start, true, parts);
    } else if s[i] == sep {
        let x = s.subrange(start, i);
        let r = parts.push(x);
        if parts.len() == 0 {
            assert(join(r, seq![sep]) == x);
        } else {
            assert(r.drop_last() =~= parts);
            assert(join(r, seq![sep]) == join(parts, seq![sep]) + seq![sep] + x);
        }
        assert(s.take(start) + x =~= s.take(i));
        assert(join(r, seq![sep]) + seq![sep] =~= s.take(i + 1));
        lemma_scan_joins(s, sep, i + 1, i + 1, false, r);
    } else {
        lemma_scan_joins(s, sep, i + 1, start, false, parts);
    }
}

/// Splitting a value at the separators no backslash escapes, and joining
/// the parts with the separator again, gives the value back.
pub proof fn lemma_split_unescaped_joins(s: Seq<char>, sep: char)
    ensures
        join(split_unescaped_spec(s, sep), seq![sep]) == s,
{
    lemma_scan_joins(s, sep, 0, 0, false, Seq::empty());
}

/// The number of separators among the first `n` characters of `s` that no
/// backslash escapes.
pub open spec fn unescaped_count(s: Seq<char>, sep: char, n: int) -> nat
    decreases n,
{
    if n <= 0 {
        0
    } else if s[n - 1] == sep && !line::esc_before(s, n - 1) {
        unescaped_count(s, sep, n - 1) + 1
    } else {
        unescaped_count(s, sep, n - 1)
    }
}

proof fn lemma_scan_count(s: Seq<char>, sep: char, i: int, start: int, parts: Seq<Seq<char>>)
    requires
        sep != '\\',
        0 <= i <= s.len(),
    ensures
        line::split_scan(s, sep, i, start, line::esc_before(s, i), parts).len() == parts.len() + 1
            + unescaped_count(s, sep, s.len() as int) - unescaped_count(s, sep, i),
    decreases s.len() - i,
{
    if i < s.len() {
        let e = line::esc_before(s, i);
        assert(line::esc_before(s, i + 1) == (!e && s[i] == '\\'));
        if e {
            lemma_scan_count(s, sep, i + 1, start, parts);
        } else if s[i] == '\\' {
            lemma_scan_count(s, sep, i + 1, start, parts);
        } else if s[i] == sep {
            lemma_scan_count(s, sep, i + 1, i + 1, parts.push(s.subrange(start, i)));
        } else {
            lemma_scan_count(s, sep, i + 1, start, parts);
        }
    }
}

/// Splitting a value at the separators no backslash escapes gives one part
/// more than there are such separators.
pub proof fn lemma_split_unescaped_count(s: Seq<char>, sep: char)
    requires
        sep != '\\',
    ensures
        split_unescaped_spec(s, sep).len() == 1 + unescaped_count(s, sep, s.len() as int),
{
    lemma_scan_count(s, sep, 0, 0, Seq::empty());
}

/// Clean components joined with `;` split back into themselves.
proof fn lemma_split_join(parts: Seq<Seq<char>>, acc: Seq<Seq<char>>)
    requires
        parts.len() >= 1,
        forall|k: int| 0 <= k < parts.len() ==> line::clean_part(#[trigger] parts[k], ';'),
    ensures
        line::split_scan(join(parts, seq![';']), ';', 0, 0, false, acc) == acc + parts,
    decreases parts.len(),
{
    if parts.len() == 1 {
        assert(line::clean_part(parts[0], ';'));
        line::lemma_scan_last_part(parts[0], ';', acc);
        assert(acc.push(parts[0]) =~= acc + parts);
    } else {
        lemma_join_first(parts, seq![';']);
        assert(line::clean_part(parts[0], ';'));
        line::lemma_scan_first_part(parts[0], join(parts.drop_first(), seq![';']), ';', acc);
        assert forall|k: int| 0 <= k < parts.drop_first().len() implies line::clean_part(
            #[trigger] parts.drop_first()[k],
            ';',
        ) by {
            assert(parts.drop_first()[k] == parts[k + 1]);
        }
        lemma_split_join(parts.drop_first(), acc.push(parts[0]));
        assert(acc.push(parts[0]) + parts.drop_first() =~= acc + parts);
    }
}

proof fn lemma_join_avoid(parts: Seq<Seq<char>>, sep: Seq<char>, c: char)
    requires
        forall|k: int| 0 <= k < sep.len() ==> sep[k] != c,
        forall|m: int, k: int| 0 <= m < parts.len() && 0 <= k < parts[m].len() ==> parts[m][k] != c,
    ensures
        forall|k: int| 0 <= k < join(parts, sep).len() ==> join(parts, sep)[k] != c,
    decreases parts.len(),
{
    if parts.len() == 1 {
        assert forall|k: int| 0 <= k < join(parts, sep).len() implies join(parts, sep)[k] != c by {
            assert(join(parts, sep)[k] == parts[0][k]);
        }
    } else if parts.len() > 1 {
        lemma_join_avoid(parts.drop_last(), sep, c);
        let a = join(parts.drop_last(), sep);
        let j = join(parts, sep);
        assert forall|k: int| 0 <= k < j.len() implies j[k] != c by {
            if k < a.len() {
                assert(j[k] == a[k]);
            } else if k < a.len() + sep.len() {
                assert(j[k] == sep[k - a.len()]);
            } else {
                assert(j[k] == parts.last()[k - a.len() - sep.len()]);
            }
        }
    }
}

proof fn lemma_first_named_unique(ls: Seq<LineView>, name: Seq<char>, i: int)
    requires
        first_named(ls, name, i),
    ensures
        named_index(ls, name) == Some(i),
{
    let c = choose|j: int| first_named(ls, name, j);
    assert(first_named(ls, name, c));
    if c < i {
        assert(!eq_ic(ls[c].name, name));
    } else if c > i {
        assert(!eq_ic(ls[i].name, name));
    }
}

proof fn lemma_named_exists(ls: Seq<LineView>, name: Seq<char>, j: int)
    requires
        0 <= j < ls.len(),
        eq_ic(ls[j].name, name),
    ensures
        named_index(ls, name) is Some,
    decreases j,
{
    if exists|i: int| 0 <= i < j && eq_ic(#[trigger] ls[i].name, name) {
        let i = choose|i: int| 0 <= i < j && eq_ic(#[trigger] ls[i].name, name);
        lemma_named_exists(ls, name, i);
    } else {
        assert(first_named(ls, name, j));
    }
}

proof fn lemma_eq_ic_refl(s: Seq<char>)
    ensures
        eq_ic(s, s),
{
}

proof fn lemma_first_begin_exists(ls: Seq<LineView>, j: int)
    requires
        0 <= j < ls.len(),
        is_begin(ls[j]),
    ensures
        exists|b: int| first_begin(ls, b),
    decreases j,
{
    if exists|i: int| 0 <= i < j && is_begin(#[trigger] ls[i]) {
        let i = choose|i: int| 0 <= i < j && is_begin(#[trigger] ls[i]);
        lemma_first_begin_exists(ls, i);
    } else {
        assert(first_begin(ls, j));
    }
}

proof fn lemma_field_name_plain(f: Field)
    ensures
        forall|k: int|
            0 <= k < field_name(f).len() ==> #[trigger] field_name(f)[k] != '"' && field_name(f)[k] != ';'
                && field_name(f)[k] != ':' && field_name(f)[k] != '.' && field_name(f)[k] != '\n'
                && field_name(f)[k] != '\r',
{
    reveal_strlit("FN");
    reveal_strlit("ORG");
    reveal_strlit("NOTE");
    reveal_strlit("N");
}

/// The components a field's new raw value has: all clean, and the field's
/// own component is the escaped value.
proof fn lemma_new_components_at(ls: Seq<LineView>, f: Field, i: int, v: Seq<char>)
    requires
        field_component(f) == Some(i),
    ensures
        i < new_components(ls, f, i, v).len(),
        new_components(ls, f, i, v)[i] == escape_text(v),
{
    assert(0 <= i < component_count(f, i));
}

proof fn lemma_new_components_clean(ls: Seq<LineView>, f: Field, i: int, v: Seq<char>)
    requires
        field_component(f) == Some(i),
        kept_clean(value_of(ls, field_name(f)), f),
    ensures
        forall|k: int|
            0 <= k < new_components(ls, f, i, v).len() ==> line::clean_part(
                #[trigger] new_components(ls, f, i, v)[k],
                ';',
            ),
        i < new_components(ls, f, i, v).len(),
        new_components(ls, f, i, v)[i] == escape_text(v),
{
    let val = value_of(ls, field_name(f));
    let parts = split_unescaped_spec(val, ';');
    line::lemma_split_parts_clean(val, ';', 0, 0, false, Seq::empty());
    line::lemma_escape_clean(v);
    let rs = resized(parts, component_count(f, i));
    let nc = new_components(ls, f, i, v);
    assert forall|k: int| 0 <= k < nc.len() implies line::clean_part(#[trigger] nc[k], ';') by {
        if k != i {
            assert(nc[k] == rs[k]);
            if k >= parts.len() {
                assert(rs[k] == Seq::<char>::empty());
                assert(!line::esc_before(rs[k], 0));
            } else {
                assert(rs[k] == parts[k]);
            }
        }
    }
}

/// Setting a field to what it already reads leaves the card as it was,
/// byte for byte.
pub proof fn lemma_set_same_keeps_card(ls: Seq<LineView>, f: Field)
    ensures
        set_lines(ls, f, card_get(ls, f)) == ls,
{
}

/// Writing a value into a field and reading the field gives the value back.
/// Where the set rewrites the field's first line, that line must be one a
/// value can be written into (see `rewritable`); where the set removes it
/// (an organization part or the note emptied), no other line may have the
/// field's property name, or that line would show; where the field has no
/// line yet, the card's `BEGIN:VCARD` line must end in a line break, whose
/// ending the new line takes. The value may hold no carriage return.
pub proof fn lemma_get_after_set(ls: Seq<LineView>, f: Field, v: Seq<char>)
    requires
        card_wf(ls),
        no_cr(v),
        card_get(ls, f) == v || match named_index(ls, field_name(f)) {
            Some(k) => if set_removes(ls, f, v) {
                only_named(ls, field_name(f), k)
            } else {
                rewritable(ls[k], f)
            },
            None => forall|b: int| first_begin(ls, b) ==> eol_of(ls[b].raw).len() > 0,
        },
    ensures
        card_get(set_lines(ls, f, v), f) == v,
{
    let name = field_name(f);
    if card_get(ls, f) == v {
        return;
    }
    let r = set_lines(ls, f, v);
    let (raw, is_empty) = set_raw(ls, f, v);
    lemma_field_name_plain(f);
    line::lemma_escape_no_cr(v);
    line::lemma_escape_no_newline(v);
    line::lemma_unescape_escape(v);
    // the new raw value: no line break, and it reads back as the value
    match named_index(ls, name) {
        Some(k) => {
            let c = choose|i: int| first_named(ls, name, i);
            assert(first_named(ls, name, c));
            assert(c == k);
            assert(ls[k].wf());
            assert(value_of(ls, name) == ls[k].value);
        },
        None => {
            assert(value_of(ls, name) == Seq::<char>::empty());
        },
    }
    let val = value_of(ls, name);
    let removes = named_index(ls, name) is Some && set_removes(ls, f, v);
    assert(field_component(f) is Some && !removes ==> no_cr(val));
    assert(no_newline(val)) by {
        if let Some(k) = named_index(ls, name) {
            assert(ls[k].wf());
        }
    }
    assert(!removes ==> forall|j: int| 0 <= j < raw.len() ==> #[trigger] raw[j] != '\r' && raw[j] != '\n') by {
        if !removes { match field_component(f) {
            None => {},
            Some(i) => {
                let parts = new_components(ls, f, i, v);
                let old = split_unescaped_spec(val, ';');
                line::lemma_split_parts_avoid(val, ';', '\r', 0, 0, false, Seq::empty());
                line::lemma_split_parts_avoid(val, ';', '\n', 0, 0, false, Seq::empty());
                let rs = resized(old, component_count(f, i));
                assert forall|m: int, k: int| 0 <= m < parts.len() && 0 <= k < parts[m].len() implies parts[m][k]
                    != '\r' && parts[m][k] != '\n' by {
                    if m == i {
                    } else if m < old.len() {
                        assert(parts[m] == old[m]);
                    } else {
                        assert(parts[m] == rs[m]);
                    }
                }
                lemma_join_avoid(parts, seq![';'], '\r');
                lemma_join_avoid(parts, seq![';'], '\n');
            },
        } }
    }
    // reading the new raw value gives the value
    assert(!removes ==> forall|i: int| field_component(f) == Some(i) ==> component(raw, i) == v) by {
        if !removes && field_component(f) is Some {
            let i = field_component(f)->0;
            if named_index(ls, name) is None {
                assert(!line::esc_before(val, 0));
            }
            lemma_new_components_clean(ls, f, i, v);
            let parts = new_components(ls, f, i, v);
            lemma_split_join(parts, Seq::empty());
            assert(Seq::<Seq<char>>::empty() + parts =~= parts);
        }
    }
    match named_index(ls, name) {
        Some(k) => {
            if is_empty && is_removable(f) {
                assert(r == ls.remove(k));
                assert(named_index(r, name) is None) by {
                    if exists|i: int| first_named(r, name, i) {
                        let i = choose|i: int| first_named(r, name, i);
                        if i < k {
                            assert(r[i] == ls[i]);
                        } else {
                            assert(r[i] == ls[i + 1]);
                        }
                    }
                }
                // an emptied field reads empty
                if field_component(f) is None {
                    assert(v.len() == 0);
                } else {
                    let i = field_component(f)->0;
                    lemma_new_components_at(ls, f, i, v);
                    assert(escape_text(v).len() == 0);
                    if v.len() > 0 {
                        assert(escape_text(v) == line::escape_char(v[0]) + escape_text(v.subrange(1, v.len() as int)));
                    }
                }
                assert(v =~= Seq::<char>::empty());
                assert(unescape_text(Seq::<char>::empty()) == Seq::<char>::empty());
                let sp = split_unescaped_spec(Seq::<char>::empty(), ';');
                assert(Seq::<char>::empty().subrange(0, 0) =~= Seq::<char>::empty());
                assert(sp =~= seq![Seq::<char>::empty()]);
            } else {
                let l = ls[k];
                let eol = eol_of(l.raw);
                line::lemma_rebuilt_line(l, raw, eol);
                let nl = built_line(logical_text(l.group, l.name, l.params, raw), eol);
                assert(r == ls.update(k, nl));
                lemma_eq_ic_refl(name);
                assert(first_named(r, name, k)) by {
                    assert forall|j: int| 0 <= j < k implies !eq_ic(#[trigger] r[j].name, name) by {
                        assert(r[j] == ls[j]);
                    }
                }
                lemma_first_named_unique(r, name, k);
                assert(value_of(r, name) == raw);
            }
        },
        None => {
            let e = choose|j: int| last_end(ls, j);
            assert(exists|j: int| last_end(ls, j)) by {
                let j = choose|j: int| 0 <= j < ls.len() && is_end(ls[j]);
                lemma_last_end_exists(ls, j);
            }
            let b = choose|j: int| first_begin(ls, j);
            assert(exists|j: int| first_begin(ls, j)) by {
                let j = choose|j: int| 0 <= j < ls.len() && is_begin(ls[j]);
                lemma_first_begin_exists(ls, j);
            }
            assert(first_begin(ls, b));
            assert(last_end(ls, e));
            let eol = eol_of(ls[b].raw);
            line::lemma_fresh_line(name, raw, eol);
            let nl = built_line(logical_text(None, name, Seq::empty(), raw), eol);
            assert(r == ls.insert(e, nl));
            ls.insert_ensures(e, nl);
            lemma_eq_ic_refl(name);
            assert(first_named(r, name, e)) by {
                assert forall|j: int| 0 <= j < e implies !eq_ic(#[trigger] r[j].name, name) by {
                    assert(r[j] == ls[j]);
                    if eq_ic(ls[j].name, name) {
                        lemma_named_exists(ls, name, j);
                    }
                }
            }
            lemma_first_named_unique(r, name, e);
            assert(value_of(r, name) == raw);
        },
    }
}

/// The first lines named `n` of two cards are the same line, or neither
/// card has one.
pub open spec fn same_first(r: Seq<LineView>, ls: Seq<LineView>, n: Seq<char>) -> bool {
    match (named_index(r, n), named_index(ls, n)) {
        (Some(a), Some(b)) => r[a] == ls[b],
        (None, None) => true,
        _ => false,
    }
}

/// At most one line has the name `n`.
pub open spec fn only_one(ls: Seq<LineView>, n: Seq<char>) -> bool {
    forall|i: int, j: int|
        0 <= i < j < ls.len() && eq_ic(#[trigger] ls[i].name, n) ==> !eq_ic(#[trigger] ls[j].name, n)
}

/// A field line that values can be written into again and again: its text
/// has a colon outside double quotes, its group, name and parameters hold
/// no carriage return, it ends in a line break, and, where its value has
/// components (`comp`), the value holds no carriage return and does not end
/// in a lone backslash.
pub open spec fn good_line(l: LineView, comp: bool) -> bool {
    &&& line::separated(line::line_text(l))
    &&& no_cr(line::logical_text(l.group, l.name, l.params, Seq::empty()))
    &&& eol_of(l.raw).len() > 0
    &&& comp ==> no_cr(l.value) && !line::esc_before(l.value, l.value.len() as int)
}

/// A card whose name, display name, organization and note can be set and
/// read back: it is well formed, its `BEGIN:VCARD` lines end in a line
/// break, and the first `N`, `FN`, `ORG` and `NOTE` lines are `good_line`s.
pub open spec fn editable(ls: Seq<LineView>) -> bool {
    &&& card_wf(ls)
    &&& forall|b: int| 0 <= b < ls.len() && is_begin(#[trigger] ls[b]) ==> eol_of(ls[b].raw).len() > 0
    &&& named_index(ls, "N"@) matches Some(k) ==> good_line(ls[k], true)
    &&& named_index(ls, "FN"@) matches Some(k) ==> good_line(ls[k], false)
    &&& named_index(ls, "ORG"@) matches Some(k) ==> good_line(ls[k], true)
    &&& named_index(ls, "NOTE"@) matches Some(k) ==> good_line(ls[k], false)
}

/// The four property names the form edits differ in length, so no two are
/// equal ignoring case.
proof fn lemma_edit_names()
    ensures
        "N"@.len() == 1,
        "FN"@.len() == 2,
        "ORG"@.len() == 3,
        "NOTE"@.len() == 4,
{
    reveal_strlit("N");
    reveal_strlit("FN");
    reveal_strlit("ORG");
    reveal_strlit("NOTE");
}

/// Replacing line `k`, whose old and new names are not `n`, keeps the
/// first line named `n`.
proof fn lemma_first_update(ls: Seq<LineView>, k: int, nl: LineView, n: Seq<char>)
    requires
        0 <= k < ls.len(),
        !eq_ic(ls[k].name, n),
        !eq_ic(nl.name, n),
    ensures
        same_first(ls.update(k, nl), ls, n),
        named_index(ls.update(k, nl), n) == named_index(ls, n),
{
    let r = ls.update(k, nl);
    if let Some(b) = named_index(ls, n) {
        let c = choose|i: int| first_named(ls, n, i);
        assert(first_named(ls, n, c));
        assert(first_named(r, n, b)) by {
            assert forall|j: int| 0 <= j < b implies !eq_ic(#[trigger] r[j].name, n) by {
                if j != k {
                    assert(r[j] == ls[j]);
                }
            }
        }
        lemma_first_named_unique(r, n, b);
    } else {
        if exists|i: int| first_named(r, n, i) {
            let i = choose|i: int| first_named(r, n, i);
            assert(i != k);
            assert(r[i] == ls[i]);
            lemma_named_exists(ls, n, i);
        }
    }
}

/// Removing line `k`, not named `n`, keeps the first line named `n`.
proof fn lemma_first_remove(ls: Seq<LineView>, k: int, n: Seq<char>)
    requires
        0 <= k < ls.len(),
        !eq_ic(ls[k].name, n),
    ensures
        same_first(ls.remove(k), ls, n),
{
    let r = ls.remove(k);
    if let Some(b) = named_index(ls, n) {
        let c = choose|i: int| first_named(ls, n, i);
        assert(first_named(ls, n, c));
        assert(b != k);
        let b2 = if b < k { b } else { b - 1 };
        assert(r[b2] == ls[b]);
        assert(first_named(r, n, b2)) by {
            assert forall|j: int| 0 <= j < b2 implies !eq_ic(#[trigger] r[j].name, n) by {
                if j < k {
                    assert(r[j] == ls[j]);
                } else {
                    assert(r[j] == ls[j + 1]);
                }
            }
        }
        lemma_first_named_unique(r, n, b2);
    } else {
        if exists|i: int| first_named(r, n, i) {
            let i = choose|i: int| first_named(r, n, i);
            if i < k {
                assert(r[i] == ls[i]);
                lemma_named_exists(ls, n, i);
            } else {
                assert(r[i] == ls[i + 1]);
                lemma_named_exists(ls, n, i + 1);
            }
        }
    }
}

/// Inserting a line not named `n` keeps the first line named `n`.
proof fn lemma_first_insert(ls: Seq<LineView>, e: int, nl: LineView, n: Seq<char>)
    requires
        0 <= e <= ls.len(),
        !eq_ic(nl.name, n),
    ensures
        same_first(ls.insert(e, nl), ls, n),
{
    let r = ls.insert(e, nl);
    ls.insert_ensures(e, nl);
    if let Some(b) = named_index(ls, n) {
        let c = choose|i: int| first_named(ls, n, i);
        assert(first_named(ls, n, c));
        let b2 = if b < e { b } else { b + 1 };
        assert(r[b2] == ls[b]);
        assert(first_named(r, n, b2)) by {
            assert forall|j: int| 0 <= j < b2 implies !eq_ic(#[trigger] r[j].name, n) by {
                if j < e {
                    assert(r[j] == ls[j]);
                } else if j > e {
                    assert(r[j] == ls[j - 1]);
                }
            }
        }
        lemma_first_named_unique(r, n, b2);
    } else {
        if exists|i: int| first_named(r, n, i) {
            let i = choose|i: int| first_named(r, n, i);
            assert(i != e);
            if i < e {
                assert(r[i] == ls[i]);
                lemma_named_exists(ls, n, i);
            } else {
                assert(r[i] == ls[i - 1]);
                lemma_named_exists(ls, n, i - 1);
            }
        }
    }
}

/// Texts joined with `;` from parts that each read back alone do not end
/// in a lone backslash.
proof fn lemma_join_clean_end(parts: Seq<Seq<char>>)
    requires
        parts.len() >= 1,
        forall|k: int| 0 <= k < parts.len() ==> line::clean_part(#[trigger] parts[k], ';'),
    ensures
        !line::esc_before(join(parts, seq![';']), join(parts, seq![';']).len() as int),
{
    let j = join(parts, seq![';']);
    let last = parts.last();
    assert(line::clean_part(parts[parts.len() - 1], ';'));
    if parts.len() == 1 {
        assert(j == parts[0]);
    } else {
        let pre = join(parts.drop_last(), seq![';']) + seq![';'];
        assert(j == pre + last);
        let st = pre.len() as int;
        assert(j[st - 1] == ';');
        assert(!line::esc_before(j, st));
        line::lemma_esc_shift(j, st, j.len() as int, j.len() as int);
        assert(j.subrange(st, j.len() as int) =~= last);
    }
}

/// An escaped text is empty only when the text is.
proof fn lemma_escape_empty(v: Seq<char>)
    ensures
        escape_text(v).len() == 0 ==> v.len() == 0,
{
    if v.len() > 0 {
        assert(escape_text(v) == line::escape_char(v[0]) + escape_text(v.subrange(1, v.len() as int)));
    }
}

/// The empty text unescapes to itself.
proof fn lemma_unescape_empty()
    ensures
        unescape_text(Seq::<char>::empty()) == Seq::<char>::empty(),
{
}

/// Components other than the one set keep what they read; when every new
/// component is empty, they read empty before the set too.
proof fn lemma_other_components(ls: Seq<LineView>, f: Field, i: int, v: Seq<char>, j: int)
    requires
        field_component(f) == Some(i),
        0 <= j,
        j != i,
    ensures
        (forall|k: int| 0 <= k < new_components(ls, f, i, v).len() ==> (#[trigger] new_components(ls, f, i, v)[k]).len() == 0)
            ==> component(value_of(ls, field_name(f)), j).len() == 0,
        kept_clean(value_of(ls, field_name(f)), f) ==> component(join(new_components(ls, f, i, v), seq![';']), j)
            == component(value_of(ls, field_name(f)), j),
{
    let val = value_of(ls, field_name(f));
    let parts = split_unescaped_spec(val, ';');
    let rs = resized(parts, component_count(f, i));
    let nc = new_components(ls, f, i, v);
    lemma_unescape_empty();
    assert(nc.len() == rs.len() && rs.len() >= parts.len());
    if j < parts.len() {
        assert(nc[j] == rs[j] && rs[j] == parts[j]);
    } else if j < nc.len() {
        assert(nc[j] == rs[j] && rs[j] == Seq::<char>::empty());
    }
    if kept_clean(val, f) {
        lemma_new_components_clean(ls, f, i, v);
        lemma_split_join(nc, Seq::empty());
        assert(Seq::<Seq<char>>::empty() + nc =~= nc);
    }
}

/// A set that removes the field's line sets it to the empty text, and the
/// other components of that line read empty before it.
pub proof fn lemma_removes_empty(ls: Seq<LineView>, f: Field, v: Seq<char>)
    requires
        set_removes(ls, f, v),
    ensures
        v.len() == 0,
        forall|g: Field| g != f && field_name(g) == field_name(f) ==> (#[trigger] card_get(ls, g)).len() == 0,
{
    lemma_escape_empty(v);
    lemma_edit_names();
    match field_component(f) {
        None => {},
        Some(i) => {
            lemma_new_components_at(ls, f, i, v);
            let nc = new_components(ls, f, i, v);
            assert(nc[i].len() == 0);
            assert forall|g: Field| g != f && field_name(g) == field_name(f) implies (#[trigger] card_get(ls, g)).len() == 0 by {
                lemma_edit_names();
                assert(field_component(g) is Some && field_component(g) != field_component(f));
                let j = field_component(g)->0;
                lemma_other_components(ls, f, i, v, j);
            }
        },
    }
}

/// What a set of a field's new raw value holds: no line break, and, where
/// the old value has no carriage return, none either.
proof fn lemma_set_raw_plain(ls: Seq<LineView>, f: Field, v: Seq<char>)
    requires
        card_wf(ls),
        no_cr(v),
        field_component(f) is Some ==> no_cr(value_of(ls, field_name(f))),
    ensures
        forall|j: int| 0 <= j < set_raw(ls, f, v).0.len() ==> #[trigger] set_raw(ls, f, v).0[j] != '\r' && set_raw(ls, f, v).0[j] != '\n',
{
    let name = field_name(f);
    let raw = set_raw(ls, f, v).0;
    line::lemma_escape_no_cr(v);
    line::lemma_escape_no_newline(v);
    let val = value_of(ls, name);
    assert(no_newline(val)) by {
        if let Some(k) = named_index(ls, name) {
            let c = choose|i: int| first_named(ls, name, i);
            assert(first_named(ls, name, c));
            assert(ls[k].wf());
        }
    }
    match field_component(f) {
        None => {},
        Some(i) => {
            let parts = new_components(ls, f, i, v);
            let old = split_unescaped_spec(val, ';');
            line::lemma_split_parts_avoid(val, ';', '\r', 0, 0, false, Seq::empty());
            line::lemma_split_parts_avoid(val, ';', '\n', 0, 0, false, Seq::empty());
            let rs = resized(old, component_count(f, i));
            assert forall|m: int, k: int| 0 <= m < parts.len() && 0 <= k < parts[m].len() implies parts[m][k]
                != '\r' && parts[m][k] != '\n' by {
                if m == i {
                } else if m < old.len() {
                    assert(parts[m] == old[m]);
                } else {
                    assert(parts[m] == rs[m]);
                }
            }
            lemma_join_avoid(parts, seq![';'], '\r');
            lemma_join_avoid(parts, seq![';'], '\n');
        },
    }
}

/// A line that parsing gives back as itself, built from a text without
/// line breaks whose group, name and parameters hold none either, is well
/// formed.
proof fn lemma_built_wf(t: Seq<char>, eol: Seq<char>, nl: LineView)
    requires
        nl == line::built_line(t, eol),
        no_newline(t),
        line::is_eol(eol),
        nl.group matches Some(g) ==> no_newline(g),
        no_newline(nl.name),
        no_newline(nl.value),
        forall|k: int| 0 <= k < nl.params.len() ==> no_newline(#[trigger] nl.params[k]),
    ensures
        nl.wf(),
{
    line::lemma_built_line(t, eol);
}

/// What setting a field keeps: the card stays editable, every other field
/// reads as before, and a name held by one line at most stays so.
pub open spec fn set_keeps(ls: Seq<LineView>, f: Field, r: Seq<LineView>) -> bool {
    &&& editable(r)
    &&& forall|g: Field| g != f ==> #[trigger] card_get(r, g) == card_get(ls, g)
    &&& only_one(ls, "ORG"@) ==> only_one(r, "ORG"@)
    &&& only_one(ls, "NOTE"@) ==> only_one(r, "NOTE"@)
}

/// The set removes the field's only line.
/// Removing a line keeps a name held by one line at most so.
proof fn lemma_remove_only_one(ls: Seq<LineView>, k: int)
    requires
        0 <= k < ls.len(),
    ensures
        forall|n: Seq<char>| only_one(ls, n) ==> only_one(ls.remove(k), n),
{
    let r = ls.remove(k);
    assert forall|n: Seq<char>| only_one(ls, n) implies only_one(r, n) by {
        assert forall|i: int, j: int|
            0 <= i < j < r.len() && eq_ic(#[trigger] r[i].name, n) implies !eq_ic(#[trigger] r[j].name, n) by {
            let i2 = if i < k { i } else { i + 1 };
            let j2 = if j < k { j } else { j + 1 };
            assert(r[i] == ls[i2] && r[j] == ls[j2]);
        }
    }
}

/// Removing a field's only line keeps what every other field reads.
#[verifier::spinoff_prover]
proof fn lemma_remove_reads(ls: Seq<LineView>, f: Field, v: Seq<char>, k: int)
    requires
        card_wf(ls),
        card_get(ls, f) != v,
        named_index(ls, field_name(f)) == Some(k),
        set_removes(ls, f, v),
        set_lines(ls, f, v) == ls.remove(k),
        named_index(ls.remove(k), field_name(f)) is None,
        0 <= k < ls.len(),
        eq_ic(ls[k].name, field_name(f)),
    ensures
        forall|g: Field| g != f ==> #[trigger] card_get(set_lines(ls, f, v), g) == card_get(ls, g),
{
    lemma_edit_names();
    let name = field_name(f);
    let r = ls.remove(k);
    lemma_removes_empty(ls, f, v);
    assert forall|g: Field| g != f implies #[trigger] card_get(r, g) == card_get(ls, g) by {
        if field_name(g).len() != name.len() {
            lemma_first_remove(ls, k, field_name(g));
        } else {
            lemma_unescape_empty();
            assert(field_name(g) == name);
            assert(card_get(ls, g).len() == 0);
            assert(value_of(r, name) == Seq::<char>::empty());
            assert(Seq::<char>::empty().subrange(0, 0) =~= Seq::<char>::empty());
            assert(split_unescaped_spec(Seq::<char>::empty(), ';') =~= seq![Seq::<char>::empty()]);
        }
    }
}

/// Removing a line that is neither `BEGIN:VCARD` nor `END:VCARD` keeps a
/// card well formed, with its `BEGIN:VCARD` lines as they were.
proof fn lemma_remove_wf(ls: Seq<LineView>, k: int)
    requires
        card_wf(ls),
        0 <= k < ls.len(),
        !is_begin(ls[k]),
        !is_end(ls[k]),
        forall|b: int| 0 <= b < ls.len() && is_begin(#[trigger] ls[b]) ==> eol_of(ls[b].raw).len() > 0,
    ensures
        card_wf(ls.remove(k)),
        forall|b: int| 0 <= b < ls.remove(k).len() && is_begin(#[trigger] ls.remove(k)[b]) ==> eol_of(ls.remove(k)[b].raw).len() > 0,
{
    let r = ls.remove(k);
    let b = choose|i: int| 0 <= i < ls.len() && is_begin(ls[i]);
    let e = choose|i: int| 0 <= i < ls.len() && is_end(ls[i]);
    assert(r[if b < k { b } else { b - 1 }] == ls[b]);
    assert(r[if e < k { e } else { e - 1 }] == ls[e]);
    assert forall|m: int| 0 <= m < r.len() implies (#[trigger] r[m]).wf() by {
        if m < k { assert(r[m] == ls[m]); } else { assert(r[m] == ls[m + 1]); }
    }
    assert forall|m: int| 0 <= m < r.len() && is_begin(#[trigger] r[m]) implies eol_of(r[m].raw).len() > 0 by {
        if m < k { assert(r[m] == ls[m]); } else { assert(r[m] == ls[m + 1]); }
    }
}

#[verifier::spinoff_prover]
#[verifier::rlimit(80)]
proof fn lemma_set_remove_case(ls: Seq<LineView>, f: Field, v: Seq<char>, k: int)
    requires
        editable(ls),
        card_get(ls, f) != v,
        named_index(ls, field_name(f)) == Some(k),
        set_removes(ls, f, v),
        only_one(ls, field_name(f)),
    ensures
        set_keeps(ls, f, set_lines(ls, f, v)),
{
    lemma_edit_names();
    lemma_field_name_edited(f);
    let name = field_name(f);
    let r = set_lines(ls, f, v);
    let c = choose|i: int| first_named(ls, name, i);
    assert(first_named(ls, name, c));
    let l = ls[k];
    assert(eq_ic(l.name, name));
    lemma_edited_not_begin_end(l, name);
    assert(r == ls.remove(k));
    lemma_removes_empty(ls, f, v);
    assert(named_index(r, name) is None) by {
        if exists|i: int| first_named(r, name, i) {
            let i = choose|i: int| first_named(r, name, i);
            if i < k {
                assert(r[i] == ls[i]);
                assert(eq_ic(ls[i].name, name));
                assert(!eq_ic(ls[k].name, name));
            } else {
                assert(r[i] == ls[i + 1]);
                assert(eq_ic(ls[i + 1].name, name));
                assert(!eq_ic(ls[i + 1].name, name));
            }
        }
    }
    lemma_remove_wf(ls, k);
    lemma_remove_reads(ls, f, v, k);
    lemma_remove_only_one(ls, k);
    assert(editable(r)) by {
        if name.len() != 1 { lemma_first_remove(ls, k, "N"@); }
        if name.len() != 2 { lemma_first_remove(ls, k, "FN"@); }
        if name.len() != 3 { lemma_first_remove(ls, k, "ORG"@); }
        if name.len() != 4 { lemma_first_remove(ls, k, "NOTE"@); }
    }
}

/// The set rewrites the field's first line.
#[verifier::spinoff_prover]
#[verifier::rlimit(80)]
proof fn lemma_set_rewrite_case(ls: Seq<LineView>, f: Field, v: Seq<char>, k: int)
    requires
        editable(ls),
        no_cr(v),
        card_get(ls, f) != v,
        named_index(ls, field_name(f)) == Some(k),
        !set_removes(ls, f, v),
    ensures
        set_keeps(ls, f, set_lines(ls, f, v)),
{
    lemma_edit_names();
    lemma_field_name_plain(f);
    lemma_field_name_edited(f);
    let name = field_name(f);
    let r = set_lines(ls, f, v);
    let raw = set_raw(ls, f, v).0;
    let comp = field_component(f) is Some;
    let c = choose|i: int| first_named(ls, name, i);
    assert(first_named(ls, name, c));
    let l = ls[k];
    assert(l.wf());
    assert(good_line(l, comp));
    assert(value_of(ls, name) == l.value);
    assert(eq_ic(l.name, name));
    lemma_edited_not_begin_end(l, name);
    let eol = eol_of(l.raw);
    line::is_eol_of(l.raw);
    lemma_set_raw_plain(ls, f, v);
    line::lemma_rebuilt_line(l, raw, eol);
    let t = line::logical_text(l.group, l.name, l.params, raw);
    let nl = line::built_line(t, eol);
    assert(r == ls.update(k, nl));
    assert(no_newline(raw));
    lemma_built_wf(t, eol, nl);
    lemma_eq_ic_refl(name);
    assert(nl.name == l.name);
    assert(first_named(r, name, k)) by {
        assert forall|j: int| 0 <= j < k implies !eq_ic(#[trigger] r[j].name, name) by {
            assert(r[j] == ls[j]);
        }
    }
    lemma_first_named_unique(r, name, k);
    assert(good_line(nl, comp)) by {
        if comp {
            let i = field_component(f)->0;
            lemma_new_components_clean(ls, f, i, v);
            lemma_new_components_at(ls, f, i, v);
            lemma_join_clean_end(new_components(ls, f, i, v));
        }
    }
    assert(card_wf(r)) by {
        let b = choose|i: int| 0 <= i < ls.len() && is_begin(ls[i]);
        let e = choose|i: int| 0 <= i < ls.len() && is_end(ls[i]);
        assert(r[b] == ls[b]);
        assert(r[e] == ls[e]);
        assert forall|m: int| 0 <= m < r.len() implies (#[trigger] r[m]).wf() by {
            if m != k { assert(r[m] == ls[m]); }
        }
    }
    lemma_edited_not_begin_end(nl, name);
    assert forall|m: int| 0 <= m < r.len() && is_begin(#[trigger] r[m]) implies eol_of(r[m].raw).len() > 0 by {
        if m != k { assert(r[m] == ls[m]); }
    }
    assert forall|g: Field| g != f implies #[trigger] card_get(r, g) == card_get(ls, g) by {
        if field_name(g).len() != name.len() {
            lemma_first_update(ls, k, nl, field_name(g));
        } else {
            assert(field_name(g) == name);
            assert(field_component(g) is Some && field_component(f) is Some);
            lemma_other_components(ls, f, field_component(f)->0, v, field_component(g)->0);
        }
    }
    assert forall|n: Seq<char>| only_one(ls, n) implies only_one(r, n) by {
        assert forall|i: int, j: int|
            0 <= i < j < r.len() && eq_ic(#[trigger] r[i].name, n) implies !eq_ic(#[trigger] r[j].name, n) by {
            assert(r[i].name == ls[i].name && r[j].name == ls[j].name);
        }
    }
    assert(editable(r)) by {
        if name.len() != 1 { lemma_first_update(ls, k, nl, "N"@); }
        if name.len() != 2 { lemma_first_update(ls, k, nl, "FN"@); }
        if name.len() != 3 { lemma_first_update(ls, k, nl, "ORG"@); }
        if name.len() != 4 { lemma_first_update(ls, k, nl, "NOTE"@); }
    }
}

/// Setting a field of an editable card: the field reads the value, every
/// other field reads as before, the card stays editable, and a name held
/// by one line at most stays so.
pub proof fn lemma_set_step(ls: Seq<LineView>, f: Field, v: Seq<char>)
    requires
        editable(ls),
        no_cr(v),
        card_get(ls, f) != v && set_removes(ls, f, v) ==> only_one(ls, field_name(f)),
    ensures
        card_get(set_lines(ls, f, v), f) == v,
        set_keeps(ls, f, set_lines(ls, f, v)),
{
    if card_get(ls, f) == v {
        return;
    }
    lemma_edit_names();
    let name = field_name(f);
    let comp = field_component(f) is Some;
    let val = value_of(ls, name);
    match named_index(ls, name) {
        Some(k) => {
            let c = choose|i: int| first_named(ls, name, i);
            assert(first_named(ls, name, c));
            assert(good_line(ls[k], comp));
            assert(val == ls[k].value);
            if set_removes(ls, f, v) {
                assert forall|j: int| 0 <= j < ls.len() && j != k implies !eq_ic(#[trigger] ls[j].name, name) by {
                    assert(eq_ic(ls[k].name, name));
                }
            }
        },
        None => {},
    }
    lemma_get_after_set(ls, f, v);
    match named_index(ls, name) {
        Some(k) => {
            if set_removes(ls, f, v) {
                lemma_set_remove_case(ls, f, v, k);
            } else {
                lemma_set_rewrite_case(ls, f, v, k);
            }
        },
        None => {
            lemma_set_insert_case(ls, f, v);
        },
    }
}

/// The set adds a line for a field the card has none of.
#[verifier::spinoff_prover]
#[verifier::rlimit(80)]
proof fn lemma_set_insert_case(ls: Seq<LineView>, f: Field, v: Seq<char>)
    requires
        editable(ls),
        no_cr(v),
        card_get(ls, f) != v,
        named_index(ls, field_name(f)) is None,
    ensures
        set_keeps(ls, f, set_lines(ls, f, v)),
{
    lemma_edit_names();
    lemma_field_name_plain(f);
    lemma_field_name_edited(f);
    let name = field_name(f);
    let r = set_lines(ls, f, v);
    let raw = set_raw(ls, f, v).0;
    let comp = field_component(f) is Some;
    assert(value_of(ls, name) == Seq::<char>::empty());
    assert(forall|j: int| 0 <= j < ls.len() ==> !eq_ic(#[trigger] ls[j].name, name)) by {
        assert forall|j: int| 0 <= j < ls.len() implies !eq_ic(#[trigger] ls[j].name, name) by {
            if eq_ic(ls[j].name, name) {
                lemma_named_exists(ls, name, j);
            }
        }
    }
    let e = choose|j: int| last_end(ls, j);
    assert(exists|j: int| last_end(ls, j)) by {
        let j = choose|j: int| 0 <= j < ls.len() && is_end(ls[j]);
        lemma_last_end_exists(ls, j);
    }
    let b = choose|j: int| first_begin(ls, j);
    assert(exists|j: int| first_begin(ls, j)) by {
        let j = choose|j: int| 0 <= j < ls.len() && is_begin(ls[j]);
        lemma_first_begin_exists(ls, j);
    }
    assert(first_begin(ls, b));
    assert(last_end(ls, e));
    let eol = eol_of(ls[b].raw);
    line::is_eol_of(ls[b].raw);
    assert(eol.len() > 0);
    lemma_set_raw_plain(ls, f, v);
    line::lemma_fresh_line(name, raw, eol);
    let t = line::logical_text(None, name, Seq::empty(), raw);
    let nl = line::built_line(t, eol);
    assert(r == ls.insert(e, nl));
    ls.insert_ensures(e, nl);
    assert(no_newline(raw));
    assert(no_newline(name));
    lemma_built_wf(t, eol, nl);
    lemma_eq_ic_refl(name);
    assert(first_named(r, name, e)) by {
        assert forall|j: int| 0 <= j < e implies !eq_ic(#[trigger] r[j].name, name) by {
            assert(r[j] == ls[j]);
        }
    }
    lemma_first_named_unique(r, name, e);
    assert(good_line(nl, comp)) by {
        let h = line::logical_text(None, name, Seq::empty(), Seq::empty());
        assert(h =~= name + seq![':']);
        assert forall|j: int| 0 <= j < h.len() implies h[j] != '\r' by {
            if j < name.len() {
                assert(h[j] == name[j]);
            }
        }
        if comp {
            let i = field_component(f)->0;
            assert(!line::esc_before(Seq::<char>::empty(), 0));
            lemma_new_components_clean(ls, f, i, v);
            lemma_new_components_at(ls, f, i, v);
            lemma_join_clean_end(new_components(ls, f, i, v));
        }
    }
    lemma_edited_not_begin_end(nl, name);
    assert(card_wf(r)) by {
        let bb = choose|i: int| 0 <= i < ls.len() && is_begin(ls[i]);
        let ee = choose|i: int| 0 <= i < ls.len() && is_end(ls[i]);
        assert(r[if bb < e { bb } else { bb + 1 }] == ls[bb]);
        assert(r[if ee < e { ee } else { ee + 1 }] == ls[ee]);
        assert forall|m: int| 0 <= m < r.len() implies (#[trigger] r[m]).wf() by {
            if m < e { assert(r[m] == ls[m]); } else if m > e { assert(r[m] == ls[m - 1]); }
        }
    }
    assert forall|m: int| 0 <= m < r.len() && is_begin(#[trigger] r[m]) implies eol_of(r[m].raw).len() > 0 by {
        if m < e { assert(r[m] == ls[m]); } else if m > e { assert(r[m] == ls[m - 1]); }
    }
    assert forall|g: Field| g != f implies #[trigger] card_get(r, g) == card_get(ls, g) by {
        if field_name(g).len() != name.len() {
            lemma_first_insert(ls, e, nl, field_name(g));
        } else {
            assert(field_name(g) == name);
            assert(field_component(g) is Some && field_component(f) is Some);
            assert(!line::esc_before(Seq::<char>::empty(), 0));
            lemma_other_components(ls, f, field_component(f)->0, v, field_component(g)->0);
        }
    }
    assert forall|n: Seq<char>| (n.len() != name.len() && only_one(ls, n)) || n == name implies only_one(r, n) by {
        assert forall|i: int, j: int|
            0 <= i < j < r.len() && eq_ic(#[trigger] r[i].name, n) implies !eq_ic(#[trigger] r[j].name, n) by {
            let i2 = if i < e { i } else { i - 1 };
            let j2 = if j < e { j } else { j - 1 };
            if i != e { assert(r[i] == ls[i2]); }
            if j != e { assert(r[j] == ls[j2]); }
        }
    }
    assert(editable(r)) by {
        if name.len() != 1 { lemma_first_insert(ls, e, nl, "N"@); }
        if name.len() != 2 { lemma_first_insert(ls, e, nl, "FN"@); }
        if name.len() != 3 { lemma_first_insert(ls, e, nl, "ORG"@); }
        if name.len() != 4 { lemma_first_insert(ls, e, nl, "NOTE"@); }
    }
}

/// The number of `BEGIN:VCARD` lines of two parts is their sum.
proof fn lemma_count_begin_concat(a: Seq<LineView>, b: Seq<LineView>)
    ensures
        count_begin(a + b) == count_begin(a) + count_begin(b),
    decreases b.len(),
{
    if b.len() > 0 {
        assert((a + b).drop_last() =~= a + b.drop_last());
        assert((a + b).last() == b.last());
        lemma_count_begin_concat(a, b.drop_last());
    } else {
        assert(a + b =~= a);
    }
}

/// A line named with a name that starts with a letter is not blank.
proof fn lemma_named_not_blank(l: LineView, n: Seq<char>)
    requires
        l.wf(),
        eq_ic(l.name, n),
        n.len() > 0,
        lower_code(n[0]) >= 65,
    ensures
        !is_blank(l),
{
    if is_blank(l) {
        line::lemma_blank_name(l);
        assert(line::is_space_char(l.name[0]));
        assert(lower_code(l.name[0]) == lower_code(n[0]));
    }
}

/// The names a card is checked against start with letters.
proof fn lemma_names_start_with_letters()
    ensures
        lower_code("BEGIN"@[0]) >= 65,
        lower_code("END"@[0]) >= 65,
        lower_code("N"@[0]) >= 65,
        lower_code("FN"@[0]) >= 65,
        lower_code("ORG"@[0]) >= 65,
        lower_code("NOTE"@[0]) >= 65,
        "BEGIN"@.len() > 0,
        "END"@.len() > 0,
{
    reveal_strlit("BEGIN");
    reveal_strlit("END");
    reveal_strlit("N");
    reveal_strlit("FN");
    reveal_strlit("ORG");
    reveal_strlit("NOTE");
}

/// A field's property name starts with a letter.
proof fn lemma_field_name_letter(f: Field)
    ensures
        field_name(f).len() > 0,
        lower_code(field_name(f)[0]) >= 65,
        field_name(f)[0] != ' ',
        field_name(f)[0] != '\t',
{
    lemma_names_start_with_letters();
    reveal_strlit("N");
    reveal_strlit("FN");
    reveal_strlit("ORG");
    reveal_strlit("NOTE");
}

/// A field line that can be rebuilt with a new value so that the card
/// still reads as itself: its text has a colon outside double quotes, its
/// group, name and parameters hold no carriage return, it ends in a line
/// break, a group it has does not start with a space or tab (which would
/// join it to the line before), and, for a component field, its value holds
/// no carriage return.
pub open spec fn rebuildable(l: LineView, f: Field) -> bool {
    &&& line::separated(line::line_text(l))
    &&& no_cr(line::logical_text(l.group, l.name, l.params, Seq::empty()))
    &&& eol_of(l.raw).len() > 0
    &&& l.group matches Some(g) ==> g.len() == 0 || (g[0] != ' ' && g[0] != '\t')
    &&& field_component(f) is Some ==> no_cr(l.value)
}

/// Lines that read from their bytes, with a first content line that
/// begins the card, one `BEGIN:VCARD` line at most, and a last content line
/// after it that ends the card, read as a card.
proof fn lemma_card_ok(r: Seq<LineView>, i: int, j: int)
    requires
        parse_lines(lines_bytes(r)) == Some(r),
        first_content(r, i) && is_begin(r[i]),
        last_content(r, j) && is_end(r[j]),
        i < j,
        count_begin(r) <= 1,
    ensures
        parse_card(lines_bytes(r)) == Ok::<Seq<LineView>, Defect>(r),
{
    let b = lines_bytes(r);
    assert(exists|i2: int| first_content(r, i2) && is_begin(r[i2]));
    assert(exists|j2: int| #![trigger last_content(r, j2)] last_content(r, j2) && is_end(r[j2]) && exists|i2: int|
        first_content(r, i2) && i2 < j2);
    match parse_lines(b) {
        Some(ls) => {
            assert(ls == r);
            assert(exists|i2: int| first_content(ls, i2) && is_begin(ls[i2]));
            assert(!(count_begin(ls) > 1));
            assert(exists|j2: int| #![trigger last_content(ls, j2)] last_content(ls, j2) && is_end(ls[j2]) && exists|i2: int|
                first_content(ls, i2) && i2 < j2);
        },
        None => {},
    }
}

/// The card parse facts that a change of one named line keeps.
proof fn lemma_card_parts(ls: Seq<LineView>)
    requires
        parse_card(lines_bytes(ls)) == Ok::<Seq<LineView>, Defect>(ls),
    ensures
        exists|i: int| first_content(ls, i) && is_begin(ls[i]),
        count_begin(ls) <= 1,
        exists|j: int| #![trigger last_content(ls, j)] last_content(ls, j) && is_end(ls[j]) && exists|i: int| first_content(ls, i) && i < j,
        parse_lines(lines_bytes(ls)) == Some(ls),
{
}

/// Removing a named line between the first and last content lines keeps
/// a card reading as itself.
#[verifier::spinoff_prover]
proof fn lemma_reparse_remove(ls: Seq<LineView>, k: int, i: int, j: int)
    requires
        card_wf(ls),
        count_begin(ls) <= 1,
        line::proper_raws(ls.map_values(|l: LineView| l.raw)),
        first_content(ls, i) && is_begin(ls[i]),
        last_content(ls, j) && is_end(ls[j]),
        i < k < j,
        !is_begin(ls[k]),
    ensures
        parse_card(lines_bytes(ls.remove(k))) == Ok::<Seq<LineView>, Defect>(ls.remove(k)),
{
    let r = ls.remove(k);
    let rs = ls.map_values(|l: LineView| l.raw);
    let rr = r.map_values(|l: LineView| l.raw);
    assert forall|m: int| 0 <= m < r.len() implies (#[trigger] r[m]).wf() by {
        if m < k { assert(r[m] == ls[m]); } else { assert(r[m] == ls[m + 1]); }
    }
    assert(line::proper_raws(rr)) by {
        assert forall|m: int| 0 <= m < rr.len() implies rr[m] == rs[if m < k { m } else { m + 1 }] by {
            if m < k { assert(r[m] == ls[m]); } else { assert(r[m] == ls[m + 1]); }
        }
        assert forall|m: int| 0 <= m < rr.len() implies (#[trigger] rr[m]).len() > 0 by {
            assert(rr[m] == rs[if m < k { m } else { m + 1 }]);
        }
        assert forall|m: int, q: int|
            0 <= m < rr.len() && 0 <= q < rr[m].len() - 1 && #[trigger] rr[m][q] == 0x0Au8 implies line::is_fold_byte(rr[m][q + 1]) by {
            assert(rr[m] == rs[if m < k { m } else { m + 1 }]);
        }
        assert forall|m: int| 0 <= m < rr.len() - 1 implies (#[trigger] rr[m]).last() == 0x0Au8 by {
            assert(rr[m] == rs[if m < k { m } else { m + 1 }]);
        }
        assert forall|m: int| 0 < m < rr.len() implies !line::is_fold_byte((#[trigger] rr[m])[0]) by {
            assert(rr[m] == rs[if m < k { m } else { m + 1 }]);
        }
    }
    line::lemma_lines_reparse(r);
    assert(first_content(r, i) && is_begin(r[i])) by {
        assert(r[i] == ls[i]);
        assert forall|m: int| 0 <= m < i implies is_blank(#[trigger] r[m]) by {
            assert(r[m] == ls[m]);
        }
    }
    assert(last_content(r, j - 1) && is_end(r[j - 1])) by {
        assert(r[j - 1] == ls[j]);
        assert forall|m: int| j - 1 < m < r.len() implies is_blank(#[trigger] r[m]) by {
            assert(r[m] == ls[m + 1]);
        }
    }
    assert(count_begin(r) <= 1) by {
        assert(ls =~= ls.take(k) + seq![ls[k]] + ls.skip(k + 1));
        assert(r =~= ls.take(k) + ls.skip(k + 1));
        lemma_count_begin_concat(ls.take(k) + seq![ls[k]], ls.skip(k + 1));
        lemma_count_begin_concat(ls.take(k), seq![ls[k]]);
        lemma_count_begin_concat(ls.take(k), ls.skip(k + 1));
        assert(seq![ls[k]].drop_last() =~= Seq::<LineView>::empty());
    }
}

/// Replacing a line between the first and last content lines by a line
/// that is not blank, not a `BEGIN:VCARD` or `END:VCARD` line, and whose raw
/// line is proper keeps a card reading as itself.
#[verifier::spinoff_prover]
proof fn lemma_reparse_update(ls: Seq<LineView>, k: int, nl: LineView, i: int, j: int)
    requires
        card_wf(ls),
        count_begin(ls) <= 1,
        line::proper_raws(ls.map_values(|l: LineView| l.raw)),
        first_content(ls, i) && is_begin(ls[i]),
        last_content(ls, j) && is_end(ls[j]),
        i < k < j,
        !is_begin(ls[k]),
        nl.wf(),
        !is_begin(nl),
        !is_blank(nl),
        nl.raw.len() > 0,
        nl.raw.last() == 0x0Au8,
        !line::is_fold_byte(nl.raw[0]),
        forall|q: int| 0 <= q < nl.raw.len() - 1 && #[trigger] nl.raw[q] == 0x0Au8 ==> line::is_fold_byte(nl.raw[q + 1]),
    ensures
        parse_card(lines_bytes(ls.update(k, nl))) == Ok::<Seq<LineView>, Defect>(ls.update(k, nl)),
{
    let r = ls.update(k, nl);
    let rs = ls.map_values(|l: LineView| l.raw);
    let rr = r.map_values(|l: LineView| l.raw);
    assert forall|m: int| 0 <= m < r.len() implies (#[trigger] r[m]).wf() by {
        if m != k { assert(r[m] == ls[m]); }
    }
    assert(rr =~= rs.update(k, nl.raw));
    assert(line::proper_raws(rr)) by {
        assert forall|m: int| 0 <= m < rr.len() implies (#[trigger] rr[m]).len() > 0 by {
            if m != k { assert(rr[m] == rs[m]); }
        }
        assert forall|m: int, q: int|
            0 <= m < rr.len() && 0 <= q < rr[m].len() - 1 && #[trigger] rr[m][q] == 0x0Au8 implies line::is_fold_byte(rr[m][q + 1]) by {
            if m != k { assert(rr[m] == rs[m]); }
        }
        assert forall|m: int| 0 <= m < rr.len() - 1 implies (#[trigger] rr[m]).last() == 0x0Au8 by {
            if m != k { assert(rr[m] == rs[m]); }
        }
        assert forall|m: int| 0 < m < rr.len() implies !line::is_fold_byte((#[trigger] rr[m])[0]) by {
            if m != k { assert(rr[m] == rs[m]); }
        }
    }
    line::lemma_lines_reparse(r);
    assert(first_content(r, i) && is_begin(r[i])) by {
        assert(r[i] == ls[i]);
        assert forall|m: int| 0 <= m < i implies is_blank(#[trigger] r[m]) by {
            assert(r[m] == ls[m]);
        }
    }
    assert(last_content(r, j) && is_end(r[j])) by {
        assert(r[j] == ls[j]);
        assert forall|m: int| j < m < r.len() implies is_blank(#[trigger] r[m]) by {
            assert(r[m] == ls[m]);
        }
    }
    assert(count_begin(r) <= 1) by {
        assert(ls =~= ls.take(k) + seq![ls[k]] + ls.skip(k + 1));
        assert(r =~= ls.take(k) + seq![nl] + ls.skip(k + 1));
        lemma_count_begin_concat(ls.take(k) + seq![ls[k]], ls.skip(k + 1));
        lemma_count_begin_concat(ls.take(k), seq![ls[k]]);
        lemma_count_begin_concat(ls.take(k) + seq![nl], ls.skip(k + 1));
        lemma_count_begin_concat(ls.take(k), seq![nl]);
        assert(seq![ls[k]].drop_last() =~= Seq::<LineView>::empty());
        assert(seq![nl].drop_last() =~= Seq::<LineView>::empty());
    }
}

/// Inserting a line that is not blank and not `BEGIN:VCARD`, with a proper
/// raw line, right before the last content line keeps a card reading as
/// itself.
#[verifier::spinoff_prover]
proof fn lemma_reparse_insert_at(ls: Seq<LineView>, nl: LineView, i: int, j: int)
    requires
        card_wf(ls),
        count_begin(ls) <= 1,
        line::proper_raws(ls.map_values(|l: LineView| l.raw)),
        first_content(ls, i) && is_begin(ls[i]),
        last_content(ls, j) && is_end(ls[j]),
        i < j,
        nl.wf(),
        !is_begin(nl),
        !is_blank(nl),
        nl.raw.len() > 0,
        nl.raw.last() == 0x0Au8,
        !line::is_fold_byte(nl.raw[0]),
        forall|q: int| 0 <= q < nl.raw.len() - 1 && #[trigger] nl.raw[q] == 0x0Au8 ==> line::is_fold_byte(nl.raw[q + 1]),
    ensures
        parse_card(lines_bytes(ls.insert(j, nl))) == Ok::<Seq<LineView>, Defect>(ls.insert(j, nl)),
{
    let r = ls.insert(j, nl);
    ls.insert_ensures(j, nl);
    let rs = ls.map_values(|l: LineView| l.raw);
    let rr = r.map_values(|l: LineView| l.raw);
    assert forall|m: int| 0 <= m < r.len() implies (#[trigger] r[m]).wf() by {
        if m < j { assert(r[m] == ls[m]); } else if m > j { assert(r[m] == ls[m - 1]); }
    }
    assert(line::proper_raws(rr)) by {
        assert forall|m: int| 0 <= m < rr.len() && m != j implies rr[m] == rs[if m < j { m } else { m - 1 }] by {
            if m < j { assert(r[m] == ls[m]); } else { assert(r[m] == ls[m - 1]); }
        }
        assert(rr[j] == nl.raw);
        assert forall|m: int| 0 <= m < rr.len() implies (#[trigger] rr[m]).len() > 0 by {
            if m != j { assert(rr[m] == rs[if m < j { m } else { m - 1 }]); }
        }
        assert forall|m: int, q: int|
            0 <= m < rr.len() && 0 <= q < rr[m].len() - 1 && #[trigger] rr[m][q] == 0x0Au8 implies line::is_fold_byte(rr[m][q + 1]) by {
            if m != j { assert(rr[m] == rs[if m < j { m } else { m - 1 }]); }
        }
        assert forall|m: int| 0 <= m < rr.len() - 1 implies (#[trigger] rr[m]).last() == 0x0Au8 by {
            if m != j { assert(rr[m] == rs[if m < j { m } else { m - 1 }]); }
        }
        assert forall|m: int| 0 < m < rr.len() implies !line::is_fold_byte((#[trigger] rr[m])[0]) by {
            if m != j { assert(rr[m] == rs[if m < j { m } else { m - 1 }]); }
        }
    }
    line::lemma_lines_reparse(r);
    assert(first_content(r, i) && is_begin(r[i])) by {
        assert(r[i] == ls[i]);
        assert forall|m: int| 0 <= m < i implies is_blank(#[trigger] r[m]) by {
            assert(r[m] == ls[m]);
        }
    }
    assert(last_content(r, j + 1) && is_end(r[j + 1])) by {
        assert(r[j + 1] == ls[j]);
        assert forall|m: int| j + 1 < m < r.len() implies is_blank(#[trigger] r[m]) by {
            assert(r[m] == ls[m - 1]);
        }
    }
    assert(count_begin(r) <= 1) by {
        assert(ls =~= ls.take(j) + ls.skip(j));
        assert(r =~= ls.take(j) + seq![nl] + ls.skip(j));
        lemma_count_begin_concat(ls.take(j), ls.skip(j));
        lemma_count_begin_concat(ls.take(j) + seq![nl], ls.skip(j));
        lemma_count_begin_concat(ls.take(j), seq![nl]);
        assert(seq![nl].drop_last() =~= Seq::<LineView>::empty());
        assert(count_begin(Seq::<LineView>::empty()) == 0);
        assert(count_begin(seq![nl]) == 0);
    }
    assert(exists|i2: int| first_content(r, i2) && is_begin(r[i2]));
    assert(exists|j2: int| #![trigger last_content(r, j2)] last_content(r, j2) && is_end(r[j2]) && exists|i2: int|
        first_content(r, i2) && i2 < j2) by {
        assert(first_content(r, i) && i < j + 1);
        assert(last_content(r, j + 1));
    }
    lemma_card_ok(r, i, j + 1);
}

/// The rewrite case of `lemma_set_reparses`.
#[verifier::spinoff_prover]
proof fn lemma_reparse_rewrite(ls: Seq<LineView>, f: Field, v: Seq<char>, k: int, i: int, j: int)
    requires
        card_wf(ls),
        count_begin(ls) <= 1,
        line::proper_raws(ls.map_values(|l: LineView| l.raw)),
        first_content(ls, i) && is_begin(ls[i]),
        last_content(ls, j) && is_end(ls[j]),
        i < k < j,
        no_cr(v),
        card_get(ls, f) != v,
        named_index(ls, field_name(f)) == Some(k),
        first_named(ls, field_name(f), k),
        !set_removes(ls, f, v),
        rebuildable(ls[k], f),
    ensures
        parse_card(lines_bytes(set_lines(ls, f, v))) == Ok::<Seq<LineView>, Defect>(set_lines(ls, f, v)),
{
    lemma_names_start_with_letters();
    lemma_field_name_letter(f);
    lemma_field_name_plain(f);
    lemma_field_name_edited(f);
    let name = field_name(f);
    let l = ls[k];
    assert(l.wf());
    assert(eq_ic(l.name, name));
    lemma_edited_not_begin_end(l, name);
    assert(value_of(ls, name) == l.value);
    let raw = set_raw(ls, f, v).0;
    let eol = eol_of(l.raw);
    line::is_eol_of(l.raw);
    lemma_set_raw_plain(ls, f, v);
    line::lemma_rebuilt_line(l, raw, eol);
    let t = line::logical_text(l.group, l.name, l.params, raw);
    let h = line::logical_text(l.group, l.name, l.params, Seq::empty());
    assert(t =~= h + raw);
    assert forall|m: int| 0 <= m < t.len() implies #[trigger] t[m] != '\n' && t[m] != '\r' by {
        if m < h.len() {
            assert(t[m] == h[m]);
        } else {
            assert(t[m] == raw[m - h.len()]);
        }
    }
    assert(t.len() > 0 && t[0] != ' ' && t[0] != '\t') by {
        match l.group {
            Some(g) => {
                if g.len() > 0 {
                    assert(t[0] == g[0]);
                } else {
                    assert(t[0] == '.');
                }
            },
            None => {
                assert(l.name.len() == name.len() && name.len() > 0);
                assert(t[0] == l.name[0]);
                assert(lower_code(l.name[0]) == lower_code(name[0]));
            },
        }
    }
    let nl = line::built_line(t, eol);
    assert(set_lines(ls, f, v) == ls.update(k, nl));
    lemma_built_wf(t, eol, nl);
    line::lemma_built_raw(t, eol);
    assert(nl.name == l.name);
    lemma_edited_not_begin_end(nl, name);
    lemma_named_not_blank(nl, name);
    lemma_reparse_update(ls, k, nl, i, j);
}

/// The insert case of `lemma_set_reparses`.
#[verifier::spinoff_prover]
proof fn lemma_reparse_insert(ls: Seq<LineView>, f: Field, v: Seq<char>, i: int, j: int)
    requires
        card_wf(ls),
        count_begin(ls) <= 1,
        line::proper_raws(ls.map_values(|l: LineView| l.raw)),
        first_content(ls, i) && is_begin(ls[i]),
        last_content(ls, j) && is_end(ls[j]),
        i < j,
        no_cr(v),
        card_get(ls, f) != v,
        named_index(ls, field_name(f)) is None,
        forall|b: int| first_begin(ls, b) ==> eol_of(ls[b].raw).len() > 0,
    ensures
        parse_card(lines_bytes(set_lines(ls, f, v))) == Ok::<Seq<LineView>, Defect>(set_lines(ls, f, v)),
{
    lemma_names_start_with_letters();
    lemma_field_name_letter(f);
    lemma_field_name_plain(f);
    lemma_field_name_edited(f);
    let name = field_name(f);
    assert(value_of(ls, name) == Seq::<char>::empty());
    let raw = set_raw(ls, f, v).0;
    let e = choose|m: int| last_end(ls, m);
    assert(exists|m: int| last_end(ls, m)) by {
        lemma_last_end_exists(ls, j);
    }
    assert(last_end(ls, e));
    assert(e == j) by {
        if e < j {
            assert(is_end(ls[j]));
        } else if e > j {
            assert(is_blank(ls[e]));
            assert(ls[e].wf());
            assert(eq_ic(ls[e].name, "END"@));
            lemma_named_not_blank(ls[e], "END"@);
        }
    }
    let b = choose|m: int| first_begin(ls, m);
    assert(exists|m: int| first_begin(ls, m)) by {
        lemma_first_begin_exists(ls, i);
    }
    assert(first_begin(ls, b));
    let eol = eol_of(ls[b].raw);
    line::is_eol_of(ls[b].raw);
    lemma_set_raw_plain(ls, f, v);
    line::lemma_fresh_line(name, raw, eol);
    let t = line::logical_text(None, name, Seq::empty(), raw);
    assert(t =~= name + seq![':'] + raw);
    assert forall|m: int| 0 <= m < t.len() implies #[trigger] t[m] != '\n' && t[m] != '\r' by {
        if m < name.len() {
            assert(t[m] == name[m]);
        } else if m > name.len() {
            assert(t[m] == raw[m - name.len() - 1]);
        }
    }
    assert(t.len() > 0 && t[0] != ' ' && t[0] != '\t') by {
        assert(t[0] == name[0]);
    }
    let nl = line::built_line(t, eol);
    assert(set_lines(ls, f, v) == ls.insert(j, nl));
    assert(no_newline(name));
    lemma_built_wf(t, eol, nl);
    line::lemma_built_raw(t, eol);
    lemma_eq_ic_refl(name);
    lemma_edited_not_begin_end(nl, name);
    lemma_named_not_blank(nl, name);
    lemma_reparse_insert_at(ls, nl, i, j);
}

/// A card's bytes read back as the card after one field was set: writing a
/// parsed card with a field set and reading the bytes gives the same lines.
/// This holds where the set rewrites a field line that `rebuildable`
/// allows, or removes one, or, for a field with no line, where the first
/// `BEGIN:VCARD` line ends in a line break; the value holds no carriage
/// return.
pub proof fn lemma_set_reparses(ls: Seq<LineView>, f: Field, v: Seq<char>)
    requires
        card_wf(ls),
        parse_card(lines_bytes(ls)) == Ok::<Seq<LineView>, Defect>(ls),
        no_cr(v),
        card_get(ls, f) == v || match named_index(ls, field_name(f)) {
            Some(k) => set_removes(ls, f, v) || rebuildable(ls[k], f),
            None => forall|b: int| first_begin(ls, b) ==> eol_of(ls[b].raw).len() > 0,
        },
    ensures
        parse_card(lines_bytes(set_lines(ls, f, v))) == Ok::<Seq<LineView>, Defect>(set_lines(ls, f, v)),
{
    let r = set_lines(ls, f, v);
    if card_get(ls, f) == v {
        return;
    }
    lemma_card_parts(ls);
    line::lemma_lines_roundtrip(lines_bytes(ls));
    line::lemma_split_proper(lines_bytes(ls));
    let rs = ls.map_values(|l: LineView| l.raw);
    assert(rs =~= line::raw_split(lines_bytes(ls)));
    assert(line::proper_raws(rs));
    lemma_names_start_with_letters();
    lemma_field_name_letter(f);
    lemma_field_name_plain(f);
    lemma_field_name_edited(f);
    let name = field_name(f);
    let i = choose|i: int| first_content(ls, i) && is_begin(ls[i]);
    let j = choose|j: int| #![trigger last_content(ls, j)] last_content(ls, j) && is_end(ls[j]) && exists|i: int| first_content(ls, i) && i < j;
    assert(first_content(ls, i) && is_begin(ls[i]));
    assert(last_content(ls, j) && is_end(ls[j]));
    assert(i < j) by {
        let i2 = choose|i2: int| first_content(ls, i2) && i2 < j;
        if i2 != i {
            if i2 < i {
                assert(is_blank(ls[i2]));
            } else {
                assert(is_blank(ls[i]));
            }
        }
    }
    match named_index(ls, name) {
        Some(k) => {
            let c = choose|m: int| first_named(ls, name, m);
            assert(first_named(ls, name, c));
            let l = ls[k];
            assert(l.wf());
            assert(eq_ic(l.name, name));
            lemma_edited_not_begin_end(l, name);
            lemma_named_not_blank(l, name);
            // the line stands between the first and the last content line
            assert(i < k < j) by {
                if k < i { assert(is_blank(ls[k])); }
                if k > j { assert(is_blank(ls[k])); }
            }
            if set_removes(ls, f, v) {
                lemma_reparse_remove(ls, k, i, j);
            } else {
                lemma_reparse_rewrite(ls, f, v, k, i, j);
            }
        },
        None => {
            lemma_reparse_insert(ls, f, v, i, j);
        },
    }
}

/// The names of the properties that cards edit.
pub open spec fn is_edited_name(name: Seq<char>) -> bool {
    name == "N"@ || name == "FN"@ || name == "ORG"@ || name == "NOTE"@ || name == "TEL"@ || name
        == "EMAIL"@ || name == "ADR"@ || name == "URL"@ || name == "BDAY"@ || name == "X-ABLabel"@
}

/// A line named like an edited property is neither `BEGIN:VCARD` nor
/// `END:VCARD`.
pub proof fn lemma_edited_not_begin_end(l: LineView, name: Seq<char>)
    requires
        eq_ic(l.name, name),
        is_edited_name(name),
    ensures
        !is_begin(l),
        !is_end(l),
{
    reveal_strlit("N");
    reveal_strlit("FN");
    reveal_strlit("ORG");
    reveal_strlit("NOTE");
    reveal_strlit("TEL");
    reveal_strlit("EMAIL");
    reveal_strlit("ADR");
    reveal_strlit("URL");
    reveal_strlit("BDAY");
    reveal_strlit("X-ABLabel");
    reveal_strlit("BEGIN");
    reveal_strlit("END");
    if is_begin(l) {
        assert(lower_code(l.name[0]) == lower_code(name[0]));
        assert(lower_code(l.name[0]) == lower_code("BEGIN"@[0]));
        if l.name.len() == 3 {
            assert(lower_code(l.name[1]) == lower_code(name[1]));
            assert(lower_code(l.name[1]) == lower_code("BEGIN"@[1]));
        }
    }
    if is_end(l) {
        assert(lower_code(l.name[0]) == lower_code(name[0]));
        assert(lower_code(l.name[0]) == lower_code("END"@[0]));
        assert(lower_code(l.name[1]) == lower_code(name[1]));
        assert(lower_code(l.name[1]) == lower_code("END"@[1]));
    }
}


/// Whether two texts are equal.
pub fn same_text(a: &[char], b: &[char]) -> (r: bool)
    ensures
        r == (a@ == b@),
{
    if a.len() != b.len() {
        return false;
    }
    let mut i: usize = 0;
    while i < a.len()
        invariant
            a.len() == b.len(),
            i <= a.len(),
            forall|j: int| 0 <= j < i ==> a@[j] == b@[j],
        decreases a.len() - i,
    {
        if a[i] != b[i] {
            return false;
        }
        i += 1;
    }
    assert(a@ =~= b@);
    true
}

impl Card {
    /// Adds the line `name;params:raw` before the last `END:VCARD`, ending
    /// like the first `BEGIN:VCARD` line.
    fn insert(&mut self, name: &str, params: &[String], raw: &str)
        requires
            old(self).wf(),
            no_newline(name@),
            forall|k: int| 0 <= k < params@.len() ==> no_newline(#[trigger] params@[k]@),
            no_newline(raw@),
        ensures
            final(self)@ == inserted(old(self)@, name@, texts(params@), raw@),
            final(self).wf(),
    {
        let ghost ls = self@;
        let n = self.lines.len();
        let mut e: usize = n;
        while e > 0 && !self.lines[e - 1].is("END", "VCARD")
            invariant
                e <= n,
                n == ls.len(),
                ls == self@,
                forall|k: int| e <= k < n ==> !is_end(#[trigger] ls[k]),
            decreases e,
        {
            e -= 1;
        }
        if e == 0 {
            proof {
                let j = choose|j: int| 0 <= j < ls.len() && is_end(ls[j]);
                assert(!is_end(ls[j]));
            }
            return;
        }
        let e = e - 1;
        assert(last_end(ls, e as int));
        let mut b: usize = 0;
        while b < n && !self.lines[b].is("BEGIN", "VCARD")
            invariant
                b <= n,
                n == ls.len(),
                ls == self@,
                forall|k: int| 0 <= k < b ==> !is_begin(#[trigger] ls[k]),
            decreases n - b,
        {
            b += 1;
        }
        if b == n {
            proof {
                let j = choose|j: int| 0 <= j < ls.len() && is_begin(ls[j]);
                assert(!is_begin(ls[j]));
            }
            return;
        }
        assert(first_begin(ls, b as int));
        proof {
            let ee = choose|j: int| last_end(ls, j);
            assert(ee == e) by {
                if ee < e {
                    assert(!is_end(ls[e as int]));
                } else if ee > e {
                    assert(!is_end(ls[ee]));
                }
            }
            let bb = choose|i: int| first_begin(ls, i);
            assert(bb == b) by {
                if bb < b {
                    assert(!is_begin(ls[bb]));
                } else if bb > b {
                    assert(!is_begin(ls[b as int]));
                }
            }
            crate::card::line::is_eol_of(ls[b as int].raw);
        }
        let line = ContentLine::new(None, name, params, raw, self.lines[b].eol());
        self.lines.insert(e, line);
        proof {
            let new = self@;
            assert(new =~= ls.insert(e as int, line@));
            assert(is_begin(new[if b < e { b as int } else { b + 1 }]));
            assert(is_end(new[e + 1]));
            assert forall|k: int| 0 <= k < new.len() implies (#[trigger] new[k]).wf() by {
                if k < e {
                    assert(new[k] == ls[k]);
                } else if k > e {
                    assert(new[k] == ls[k - 1]);
                }
            }
        }
    }
}


impl Field {
    fn is_name_part(self) -> (r: bool)
        ensures
            r == is_name_part(self),
    {
        match self {
            Field::Prefixes | Field::Given | Field::Additional | Field::Family | Field::Suffixes => true,
            _ => false,
        }
    }

    fn is_removable(self) -> (r: bool)
        ensures
            r == is_removable(self),
    {
        match self {
            Field::Company | Field::Department | Field::Note => true,
            _ => false,
        }
    }
}

/// Whether every text is empty.
fn all_empty(parts: &Vec<Vec<char>>) -> (r: bool)
    ensures
        r == forall|k: int| 0 <= k < parts@.len() ==> (#[trigger] parts@[k]@).len() == 0,
{
    let mut i: usize = 0;
    while i < parts.len()
        invariant
            i <= parts@.len(),
            forall|k: int| 0 <= k < i ==> (#[trigger] parts@[k]@).len() == 0,
        decreases parts.len() - i,
    {
        if parts[i].len() != 0 {
            return false;
        }
        i += 1;
    }
    true
}

/// Field property names are edited names.
proof fn lemma_field_name_edited(f: Field)
    ensures
        is_edited_name(field_name(f)),
        no_newline(field_name(f)),
{
    reveal_strlit("N");
    reveal_strlit("FN");
    reveal_strlit("ORG");
    reveal_strlit("NOTE");
}

impl Card {
    /// The new raw value of a field's property, and whether it is empty.
    fn new_raw(&self, field: Field, val: &[char]) -> (r: (Vec<char>, bool))
        requires
            self.wf(),
        ensures
            (r.0@, r.1) == set_raw(self@, field, val@),
            no_newline(r.0@),
    {
        let ghost ls = self@;
        let ghost value = val;
        let (name, comp) = field.property();
        let index = self.position_of(name);
        match comp {
            None => {
                let e = line::escape(val);
                assert(field_component(field) is None);
                assert(set_raw(ls, field, val@) == (escape_text(val@), val@.len() == 0));
                (e, val.len() == 0)
            },
            Some(i) => {
                let current = self.value_named(name);
                proof {
                    match index {
                        Some(k) => {
                            let c = choose|i: int| first_named(ls, name@, i);
                            assert(c == k) by {
                                if c < k {
                                    assert(!eq_ic(ls[c].name, name@));
                                } else if c > k {
                                    assert(!eq_ic(ls[k as int].name, name@));
                                }
                            }
                            assert(ls[k as int].wf());
                        },
                        None => {},
                    }
                }
                let mut parts = line::split_unescaped(&current, ';');
                let len: usize = if field.is_name_part() {
                    5
                } else {
                    i + 1
                };
                let ghost start = char_seqs(parts@);
                while parts.len() < len
                    invariant
                        start.len() <= char_seqs(parts@).len(),
                        char_seqs(parts@) == resized(start, char_seqs(parts@).len() as int),
                        char_seqs(parts@).len() < len ==> start.len() < len,
                        parts@.len() <= len || parts@.len() == start.len(),
                        forall|k: int| 0 <= k < parts@.len() ==> no_newline(#[trigger] parts@[k]@),
                    decreases len - parts.len(),
                {
                    let ghost old = char_seqs(parts@);
                    parts.push(Vec::new());
                    assert(char_seqs(parts@) =~= old.push(Seq::<char>::empty()));
                    assert(char_seqs(parts@) =~= resized(start, char_seqs(parts@).len() as int));
                }
                assert(char_seqs(parts@) == resized(start, len as int));
                let escaped = line::escape(val);
                let ghost before = char_seqs(parts@);
                parts.set(i, escaped);
                assert(char_seqs(parts@) =~= before.update(i as int, escape_text(value@)));
                let is_empty = all_empty(&parts);
                proof {
                    lemma_join_no_newline(char_seqs(parts@), seq![';']);
                }
                let semicolon = [';'];
                assert(semicolon@ == seq![';']);
                let joined = join_texts(&parts, &semicolon);
                proof {
                    let cs = char_seqs(parts@);
                    assert(is_empty == forall|k: int| 0 <= k < cs.len() ==> cs[k].len() == 0) by {
                        if is_empty {
                            assert forall|k: int| 0 <= k < cs.len() implies cs[k].len() == 0 by {
                                assert(cs[k] == parts@[k]@);
                            }
                        } else {
                            let k = choose|k: int| 0 <= k < parts@.len() && (#[trigger] parts@[k]@).len() != 0;
                            assert(cs[k] == parts@[k]@);
                        }
                    }
                    assert(value_of(ls, field_name(field)) == current@);
                    assert(field_component(field) == Some(i as int));
                }
                (joined, is_empty)
            },
        
        }
    }

    /// Sets a field, rewriting only the line that holds it.
    pub fn set(&mut self, field: Field, value: &str)
        requires
            old(self).wf(),
        ensures
            final(self)@ == set_lines(old(self)@, field, value@),
            final(self).wf(),
    {
        let ghost ls = self@;
        let val = chars_of(value);
        let current = self.get(field);
        if same_text(&chars_of(current.as_str()), &val) {
            return;
        }
        let (name, comp) = field.property();
        proof {
            lemma_field_name_edited(field);
        }
        let index = self.position_of(name);
        let ghost spec_index = named_index(ls, name@);
        proof {
            match index {
                Some(k) => {
                    let c = choose|i: int| first_named(ls, name@, i);
                    assert(c == k) by {
                        if c < k {
                            assert(!eq_ic(ls[c].name, name@));
                        } else if c > k {
                            assert(!eq_ic(ls[k as int].name, name@));
                        }
                    }
                },
                None => {},
            }
        }
        let (raw, is_empty) = self.new_raw(field, &val);
        assert((raw@, is_empty) == set_raw(ls, field, value@));
        let raw = string_of(&raw);
        match index {
            Some(k) => {
                proof {
                    lemma_edited_not_begin_end(ls[k as int], name@);
                }
                if is_empty && field.is_removable() {
                    self.lines.remove(k);
                    proof {
                        let new = self@;
                        assert(new =~= ls.remove(k as int));
                        let b = choose|j: int| 0 <= j < ls.len() && is_begin(ls[j]);
                        let e = choose|j: int| 0 <= j < ls.len() && is_end(ls[j]);
                        assert(is_begin(new[if b < k { b } else { b - 1 }]));
                        assert(is_end(new[if e < k { e } else { e - 1 }]));
                        assert forall|m: int| 0 <= m < new.len() implies (#[trigger] new[m]).wf() by {
                            if m < k {
                                assert(new[m] == ls[m]);
                            } else {
                                assert(new[m] == ls[m + 1]);
                            }
                        }
                    }
                } else {
                    assert(ls[k as int].wf());
                    let l = self.lines[k].with_value(raw.as_str());
                    self.lines.set(k, l);
                    proof {
                        let new = self@;
                        assert(new =~= ls.update(k as int, l@));
                        let b = choose|j: int| 0 <= j < ls.len() && is_begin(ls[j]);
                        let e = choose|j: int| 0 <= j < ls.len() && is_end(ls[j]);
                        assert(new[b] == ls[b]);
                        assert(new[e] == ls[e]);
                        assert forall|m: int| 0 <= m < new.len() implies (#[trigger] new[m]).wf() by {
                            if m != k {
                                assert(new[m] == ls[m]);
                            }
                        }
                    }
                }
            },
            None => {
                let empty: Vec<String> = Vec::new();
                assert(texts(empty@) =~= Seq::<Seq<char>>::empty());
                self.insert(name, empty.as_slice(), raw.as_str());
            },
        }
    }
}


/// The lines named `name` (ignoring ASCII case), in order.
pub open spec fn named_lines(ls: Seq<LineView>, name: Seq<char>) -> Seq<LineView>
    decreases ls.len(),
{
    if ls.len() == 0 {
        Seq::empty()
    } else if eq_ic(ls.last().name, name) {
        named_lines(ls.drop_last(), name).push(ls.last())
    } else {
        named_lines(ls.drop_last(), name)
    }
}

/// An `X-ABLabel` line of group `g` (both compared ignoring ASCII case).
pub open spec fn is_ablabel_for(l: LineView, g: Seq<char>) -> bool {
    eq_ic(l.name, "X-ABLabel"@) && (l.group matches Some(h) && eq_ic(h, g))
}

/// `i` is the first `X-ABLabel` line of group `g`.
pub open spec fn first_ablabel(ls: Seq<LineView>, g: Seq<char>, i: int) -> bool {
    0 <= i < ls.len() && is_ablabel_for(ls[i], g) && forall|j: int|
        0 <= j < i ==> !is_ablabel_for(#[trigger] ls[j], g)
}

/// The label of a property line: for a grouped line, the decoded value of
/// the first `X-ABLabel` of its group; otherwise, or without such a line,
/// what its `TYPE=` parameters say.
pub open spec fn label_of(ls: Seq<LineView>, l: LineView) -> Option<Seq<char>> {
    match l.group {
        Some(g) => if exists|i: int| first_ablabel(ls, g, i) {
            let i = choose|i: int| first_ablabel(ls, g, i);
            Some(label::decode_label(unescape_text(ls[i].value)))
        } else {
            label::label_from_types(l.params)
        },
        None => label::label_from_types(l.params),
    }
}

/// A value with an optional label.
#[derive(Debug, PartialEq, Eq)]
pub struct Labeled<T> {
    pub label: Option<String>,
    pub value: T,
}

/// Labeled texts as pairs of label and text.
pub open spec fn labeled_texts(v: Seq<Labeled<String>>) -> Seq<(Option<Seq<char>>, Seq<char>)> {
    v.map_values(|x: Labeled<String>| (line::opt_text(x.label), x.value@))
}

/// The labeled, unescaped values of the lines named `name`.
pub open spec fn labeled_values(ls: Seq<LineView>, name: Seq<char>) -> Seq<(Option<Seq<char>>, Seq<char>)> {
    named_lines(ls, name).map_values(|l: LineView| (label_of(ls, l), unescape_text(l.value)))
}

impl Card {
    /// The label of a property line.
    fn label(&self, property: &ContentLine) -> (r: Option<String>)
        ensures
            line::opt_text(r) == label_of(self@, property@),
    {
        let ghost ls = self@;
        match property.group() {
            Some(g) => {
                let gc = chars_of(g);
                let ab = chars_of("X-ABLabel");
                let mut i: usize = 0;
                while i < self.lines.len()
                    invariant
                        i <= ls.len(),
                        ls == self@,
                        gc@ == g@,
                        ab@ == "X-ABLabel"@,
                        property@.group == Some(g@),
                        forall|j: int| 0 <= j < i ==> !is_ablabel_for(#[trigger] ls[j], g@),
                    decreases self.lines.len() - i,
                {
                    let l = &self.lines[i];
                    let is_label = eq_ignore_case(&chars_of(l.name()), &ab) && match l.group() {
                        Some(h) => eq_ignore_case(&chars_of(h), &gc),
                        None => false,
                    };
                    if is_label {
                        assert(first_ablabel(ls, g@, i as int));
                        proof {
                            let k = choose|k: int| first_ablabel(ls, g@, k);
                            assert(k == i) by {
                                if k < i {
                                    assert(!is_ablabel_for(ls[k], g@));
                                } else if k > i {
                                    assert(!is_ablabel_for(ls[i as int], g@));
                                }
                            }
                        }
                        let v = line::unescape(&chars_of(l.value()));
                        assert(property@.group == Some(g@));
                        assert(label_of(ls, property@) == Some(
                            label::decode_label(unescape_text(ls[i as int].value)),
                        ));
                        let d = label::decode(&v);
                        let r = string_of(&d);
                        assert(r@ == label::decode_label(unescape_text(ls[i as int].value)));
                        return Some(r);
                    }
                    i += 1;
                }
                proof {
                    if exists|k: int| first_ablabel(ls, g@, k) {
                        let k = choose|k: int| first_ablabel(ls, g@, k);
                        assert(!is_ablabel_for(ls[k], g@));
                    }
                }
                label::from_types(property.params())
            },
            None => label::from_types(property.params()),
        }
    }

    /// The labeled, unescaped values of the lines named `name`.
    fn labeled(&self, name: &str) -> (r: Vec<Labeled<String>>)
        ensures
            labeled_texts(r@) == labeled_values(self@, name@),
    {
        let ghost ls = self@;
        let target = chars_of(name);
        let mut out: Vec<Labeled<String>> = Vec::new();
        let mut i: usize = 0;
        while i < self.lines.len()
            invariant
                i <= ls.len(),
                ls == self@,
                target@ == name@,
                labeled_texts(out@) == named_lines(ls.take(i as int), name@).map_values(
                    |l: LineView| (label_of(ls, l), unescape_text(l.value)),
                ),
            decreases self.lines.len() - i,
        {
            let l = &self.lines[i];
            assert(ls.take(i + 1).drop_last() == ls.take(i as int));
            assert(ls.take(i + 1).last() == l@);
            if eq_ignore_case(&chars_of(l.name()), &target) {
                let item = Labeled {
                    label: self.label(l),
                    value: string_of(&line::unescape(&chars_of(l.value()))),
                };
                let ghost old = labeled_texts(out@);
                out.push(item);
                assert(labeled_texts(out@) =~= old.push((label_of(ls, l@), unescape_text(l@.value))));
            }
            i += 1;
        }
        assert(ls.take(ls.len() as int) == ls);
        out
    }

    /// The phone numbers with their labels.
    pub fn phones(&self) -> (r: Vec<Labeled<String>>)
        ensures
            labeled_texts(r@) == labeled_values(self@, "TEL"@),
    {
        self.labeled("TEL")
    }

    /// The email addresses with their labels.
    pub fn emails(&self) -> (r: Vec<Labeled<String>>)
        ensures
            labeled_texts(r@) == labeled_values(self@, "EMAIL"@),
    {
        self.labeled("EMAIL")
    }

    /// The display name (`FN`).
    pub fn display_name(&self) -> (r: String)
        ensures
            r@ == card_get(self@, Field::DisplayName),
    {
        self.get(Field::DisplayName)
    }

    /// The family and given names, the parts the list sorts by.
    pub fn structured_name(&self) -> (r: (String, String))
        ensures
            r.0@ == card_get(self@, Field::Family),
            r.1@ == card_get(self@, Field::Given),
    {
        (self.get(Field::Family), self.get(Field::Given))
    }

    /// The unescaped note, if the card has a `NOTE`.
    pub fn note(&self) -> (r: Option<String>)
        ensures
            match r {
                Some(n) => named_index(self@, "NOTE"@) is Some && n@ == unescape_text(value_of(self@, "NOTE"@)),
                None => named_index(self@, "NOTE"@) is None,
            },
    {
        match self.position_of("NOTE") {
            Some(_) => Some(string_of(&line::unescape(&self.value_named("NOTE")))),
            None => None,
        }
    }

    /// The unescaped URLs.
    pub fn urls(&self) -> (r: Vec<String>)
        ensures
            line::texts(r@) == named_lines(self@, "URL"@).map_values(|l: LineView| unescape_text(l.value)),
    {
        let ghost ls = self@;
        let target = chars_of("URL");
        let mut out: Vec<String> = Vec::new();
        let mut i: usize = 0;
        while i < self.lines.len()
            invariant
                i <= ls.len(),
                ls == self@,
                target@ == "URL"@,
                line::texts(out@) == named_lines(ls.take(i as int), "URL"@).map_values(
                    |l: LineView| unescape_text(l.value),
                ),
            decreases self.lines.len() - i,
        {
            let l = &self.lines[i];
            assert(ls.take(i + 1).drop_last() == ls.take(i as int));
            assert(ls.take(i + 1).last() == l@);
            if eq_ignore_case(&chars_of(l.name()), &target) {
                let ghost old = line::texts(out@);
                out.push(string_of(&line::unescape(&chars_of(l.value()))));
                assert(line::texts(out@) =~= old.push(unescape_text(l@.value)));
            }
            i += 1;
        }
        assert(ls.take(ls.len() as int) == ls);
        out
    }
}


/// A postal address's seven components.
#[derive(Debug, PartialEq, Eq)]
pub struct Address {
    pub po_box: String,
    pub extended: String,
    pub street: String,
    pub city: String,
    pub region: String,
    pub postal_code: String,
    pub country: String,
}

impl View for Address {
    type V = Seq<Seq<char>>;

    open spec fn view(&self) -> Seq<Seq<char>> {
        seq![
            self.po_box@,
            self.extended@,
            self.street@,
            self.city@,
            self.region@,
            self.postal_code@,
            self.country@,
        ]
    }
}

/// The seven unescaped components of an `ADR` value; missing ones are empty.
pub open spec fn address_parts(value: Seq<char>) -> Seq<Seq<char>> {
    Seq::new(7, |k: int| component(value, k))
}

/// Component `i` of a value split into parts, unescaped, or empty.
fn component_of(parts: &Vec<Vec<char>>, i: usize) -> (r: String)
    ensures
        r@ == (if i < parts@.len() {
            unescape_text(parts@[i as int]@)
        } else {
            Seq::<char>::empty()
        }),
{
    if i < parts.len() {
        string_of(&line::unescape(&parts[i]))
    } else {
        String::new()
    }
}

impl Address {
    /// Reads an `ADR` value.
    fn parse(value: &[char]) -> (a: Self)
        ensures
            a@ == address_parts(value@),
    {
        let parts = line::split_unescaped(value, ';');
        let a = Address {
            po_box: component_of(&parts, 0),
            extended: component_of(&parts, 1),
            street: component_of(&parts, 2),
            city: component_of(&parts, 3),
            region: component_of(&parts, 4),
            postal_code: component_of(&parts, 5),
            country: component_of(&parts, 6),
        };
        assert(a@ =~= address_parts(value@));
        a
    }
}

/// A company and its department.
#[derive(Debug, PartialEq, Eq)]
pub struct Organization {
    pub company: String,
    pub department: String,
}

/// The organization: the first two components of the first `ORG` value,
/// or none without an `ORG` line.
pub open spec fn organization_of(ls: Seq<LineView>) -> Option<(Seq<char>, Seq<char>)> {
    match named_index(ls, "ORG"@) {
        Some(i) => Some((component(ls[i].value, 0), component(ls[i].value, 1))),
        None => None,
    }
}

/// Kinds of values a card can hold several of.
#[derive(Debug, Clone, Copy, PartialEq, Eq, Structural)]
pub enum Kind {
    Phone,
    Email,
}

pub open spec fn kind_name(k: Kind) -> Seq<char> {
    match k {
        Kind::Phone => "TEL"@,
        Kind::Email => "EMAIL"@,
    }
}

/// Phone numbers are the card's `TEL` values and email addresses its
/// `EMAIL` values, the two kinds reading different properties.
pub proof fn lemma_kind_properties()
    ensures
        kind_name(Kind::Phone) == "TEL"@,
        kind_name(Kind::Email) == "EMAIL"@,
        kind_name(Kind::Phone) != kind_name(Kind::Email),
{
    reveal_strlit("TEL");
    reveal_strlit("EMAIL");
}

impl Kind {
    fn property(self) -> (r: &'static str)
        ensures
            r@ == kind_name(self),
    {
        match self {
            Kind::Phone => "TEL",
            Kind::Email => "EMAIL",
        }
    }
}

/// The positions of the lines named `name`, in order.
pub open spec fn named_indices(ls: Seq<LineView>, name: Seq<char>) -> Seq<int>
    decreases ls.len(),
{
    if ls.len() == 0 {
        Seq::empty()
    } else if eq_ic(ls.last().name, name) {
        named_indices(ls.drop_last(), name).push(ls.len() - 1)
    } else {
        named_indices(ls.drop_last(), name)
    }
}

/// Positions of named lines are positions of lines with that name.
pub proof fn lemma_named_indices(ls: Seq<LineView>, name: Seq<char>)
    ensures
        forall|k: int| 0 <= k < named_indices(ls, name).len() ==> 0 <= #[trigger] named_indices(ls, name)[k] < ls.len()
            && eq_ic(ls[named_indices(ls, name)[k]].name, name),
        named_indices(ls, name).len() == named_lines(ls, name).len(),
    decreases ls.len(),
{
    if ls.len() > 0 {
        lemma_named_indices(ls.drop_last(), name);
    }
}

impl Card {
    /// The organization, if the card has an `ORG` line.
    pub fn organization(&self) -> (r: Option<Organization>)
        ensures
            match r {
                Some(o) => organization_of(self@) == Some((o.company@, o.department@)),
                None => organization_of(self@) is None,
            },
    {
        match self.position_of("ORG") {
            Some(_) => {
                let v = self.value_named("ORG");
                let parts = line::split_unescaped(&v, ';');
                Some(Organization { company: component_of(&parts, 0), department: component_of(&parts, 1) })
            },
            None => None,
        }
    }

    /// The postal addresses with their labels.
    pub fn addresses(&self) -> (r: Vec<Labeled<Address>>)
        ensures
            r@.map_values(|a: Labeled<Address>| (line::opt_text(a.label), a.value@)) == named_lines(
                self@,
                "ADR"@,
            ).map_values(|l: LineView| (label_of(self@, l), address_parts(l.value))),
    {
        let ghost ls = self@;
        let target = chars_of("ADR");
        let mut out: Vec<Labeled<Address>> = Vec::new();
        let mut i: usize = 0;
        while i < self.lines.len()
            invariant
                i <= ls.len(),
                ls == self@,
                target@ == "ADR"@,
                out@.map_values(|a: Labeled<Address>| (line::opt_text(a.label), a.value@)) == named_lines(
                    ls.take(i as int),
                    "ADR"@,
                ).map_values(|l: LineView| (label_of(ls, l), address_parts(l.value))),
            decreases self.lines.len() - i,
        {
            let l = &self.lines[i];
            assert(ls.take(i + 1).drop_last() == ls.take(i as int));
            assert(ls.take(i + 1).last() == l@);
            if eq_ignore_case(&chars_of(l.name()), &target) {
                let item = Labeled { label: self.label(l), value: Address::parse(&chars_of(l.value())) };
                let ghost old = out@.map_values(|a: Labeled<Address>| (line::opt_text(a.label), a.value@));
                out.push(item);
                assert(out@.map_values(|a: Labeled<Address>| (line::opt_text(a.label), a.value@)) =~= old.push(
                    (label_of(ls, l@), address_parts(l@.value)),
                ));
            }
            i += 1;
        }
        assert(ls.take(ls.len() as int) == ls);
        out
    }

    /// The values of a kind, each as a one-component value with its label.
    pub fn entries(&self, kind: Kind) -> (r: Vec<Labeled<Vec<String>>>)
        ensures
            r@.map_values(|e: Labeled<Vec<String>>| (line::opt_text(e.label), line::texts(e.value@)))
                == labeled_values(self@, kind_name(kind)).map_values(
                |p: (Option<Seq<char>>, Seq<char>)| (p.0, seq![p.1]),
            ),
    {
        let values = self.labeled(kind.property());
        let mut out: Vec<Labeled<Vec<String>>> = Vec::new();
        let ghost want = labeled_values(self@, kind_name(kind)).map_values(
            |p: (Option<Seq<char>>, Seq<char>)| (p.0, seq![p.1]),
        );
        let mut values = values;
        let n = values.len();
        let mut rev: Vec<Labeled<String>> = Vec::new();
        let ghost all = values@;
        while values.len() > 0
            invariant
                values@.len() + rev@.len() == n,
                all.len() == n,
                forall|k: int| 0 <= k < values@.len() ==> #[trigger] values@[k] == all[k],
                forall|k: int| 0 <= k < rev@.len() ==> #[trigger] rev@[k] == all[n - 1 - k],
            decreases values.len(),
        {
            let v = values.pop().unwrap();
            rev.push(v);
        }
        let mut i: usize = 0;
        while i < n
            invariant
                i <= n,
                all.len() == n,
                rev@.len() == n - i,
                forall|k: int| 0 <= k < rev@.len() ==> #[trigger] rev@[k] == all[n - 1 - k],
                labeled_texts(all) == labeled_values(self@, kind_name(kind)),
                want == labeled_values(self@, kind_name(kind)).map_values(
                    |p: (Option<Seq<char>>, Seq<char>)| (p.0, seq![p.1]),
                ),
                out@.map_values(|e: Labeled<Vec<String>>| (line::opt_text(e.label), line::texts(e.value@)))
                    == want.take(i as int),
            decreases n - i,
        {
            let v = rev.pop().unwrap();
            assert(v == all[i as int]);
            assert(labeled_texts(all)[i as int] == (line::opt_text(v.label), v.value@));
            let mut single: Vec<String> = Vec::new();
            let ghost lab = line::opt_text(v.label);
            let ghost val = v.value@;
            single.push(v.value);
            assert(line::texts(single@) =~= seq![val]);
            let item = Labeled { label: v.label, value: single };
            let ghost old = out@.map_values(
                |e: Labeled<Vec<String>>| (line::opt_text(e.label), line::texts(e.value@)),
            );
            out.push(item);
            assert(out@.map_values(|e: Labeled<Vec<String>>| (line::opt_text(e.label), line::texts(e.value@)))
                =~= old.push((lab, seq![val])));
            assert(want.take(i + 1) =~= want.take(i as int).push(want[i as int]));
            i += 1;
        }
        assert(want.take(n as int) =~= want);
        out
    }

    /// The positions of the lines named `name`.
    fn positions(&self, name: &str) -> (r: Vec<usize>)
        ensures
            r@.map_values(|i: usize| i as int) == named_indices(self@, name@),
    {
        let ghost ls = self@;
        let target = chars_of(name);
        let mut out: Vec<usize> = Vec::new();
        let mut i: usize = 0;
        while i < self.lines.len()
            invariant
                i <= ls.len(),
                ls == self@,
                target@ == name@,
                out@.map_values(|i: usize| i as int) == named_indices(ls.take(i as int), name@),
            decreases self.lines.len() - i,
        {
            let l = &self.lines[i];
            assert(ls.take(i + 1).drop_last() == ls.take(i as int));
            assert(ls.take(i + 1).last() == l@);
            if eq_ignore_case(&chars_of(l.name()), &target) {
                let ghost old = out@.map_values(|i: usize| i as int);
                out.push(i);
                assert(out@.map_values(|i: usize| i as int) =~= old.push(i as int));
            }
            i += 1;
        }
        assert(ls.take(ls.len() as int) == ls);
        out
    }
}


/// The line goes when lines of group `g` are removed: all of them, or
/// only their `X-ABLabel` lines.
pub open spec fn drops(l: LineView, g: Seq<char>, only_labels: bool) -> bool {
    if only_labels {
        is_ablabel_for(l, g)
    } else {
        l.group matches Some(h) && eq_ic(h, g)
    }
}

/// The lines without those that go.
pub open spec fn without(ls: Seq<LineView>, g: Seq<char>, only_labels: bool) -> Seq<LineView>
    decreases ls.len(),
{
    if ls.len() == 0 {
        Seq::empty()
    } else if drops(ls.last(), g, only_labels) {
        without(ls.drop_last(), g, only_labels)
    } else {
        without(ls.drop_last(), g, only_labels).push(ls.last())
    }
}

/// Removing lines keeps every other line and adds none.
pub proof fn lemma_without(ls: Seq<LineView>, g: Seq<char>, only_labels: bool)
    ensures
        forall|k: int| 0 <= k < without(ls, g, only_labels).len() ==> exists|j: int|
            0 <= j < ls.len() && ls[j] == #[trigger] without(ls, g, only_labels)[k],
        forall|j: int| 0 <= j < ls.len() && !drops(#[trigger] ls[j], g, only_labels) ==> exists|k: int|
            0 <= k < without(ls, g, only_labels).len() && without(ls, g, only_labels)[k] == ls[j],
    decreases ls.len(),
{
    if ls.len() > 0 {
        let prev = ls.drop_last();
        lemma_without(prev, g, only_labels);
        let w = without(ls, g, only_labels);
        let wp = without(prev, g, only_labels);
        assert forall|k: int| 0 <= k < w.len() implies exists|j: int|
            0 <= j < ls.len() && ls[j] == #[trigger] w[k] by {
            if k < wp.len() {
                assert(w[k] == wp[k]);
                let j = choose|j: int| 0 <= j < prev.len() && prev[j] == wp[k];
                assert(ls[j] == prev[j]);
            } else {
                assert(w[k] == ls.last());
                assert(ls[ls.len() - 1] == ls.last());
            }
        }
        assert forall|j: int| 0 <= j < ls.len() && !drops(#[trigger] ls[j], g, only_labels) implies exists|k: int|
            0 <= k < w.len() && w[k] == ls[j] by {
            if j < prev.len() {
                assert(ls[j] == prev[j]);
                assert(!drops(prev[j], g, only_labels));
                let k = choose|k: int| 0 <= k < wp.len() && wp[k] == prev[j];
                assert(w[k] == wp[k]);
            } else {
                assert(w[w.len() - 1] == ls.last());
            }
        }
    }
}

/// Removing grouped lines keeps a card's lines well formed.
proof fn lemma_without_wf(ls: Seq<LineView>, g: Seq<char>, only_labels: bool)
    requires
        card_wf(ls),
    ensures
        card_wf(without(ls, g, only_labels)),
{
    lemma_without(ls, g, only_labels);
    let w = without(ls, g, only_labels);
    let b = choose|j: int| 0 <= j < ls.len() && is_begin(ls[j]);
    let e = choose|j: int| 0 <= j < ls.len() && is_end(ls[j]);
    assert(!drops(ls[b], g, only_labels));
    assert(!drops(ls[e], g, only_labels));
    let kb = choose|k: int| 0 <= k < w.len() && w[k] == ls[b];
    let ke = choose|k: int| 0 <= k < w.len() && w[k] == ls[e];
    assert(is_begin(w[kb]));
    assert(is_end(w[ke]));
    assert forall|k: int| 0 <= k < w.len() implies (#[trigger] w[k]).wf() by {
        let j = choose|j: int| 0 <= j < ls.len() && ls[j] == w[k];
    }
}

/// Parameters without their `TYPE=` ones come from the parameters.
proof fn lemma_untyped(ps: Seq<Seq<char>>)
    ensures
        forall|k: int| 0 <= k < label::untyped(ps).len() ==> exists|j: int|
            0 <= j < ps.len() && ps[j] == #[trigger] label::untyped(ps)[k],
    decreases ps.len(),
{
    if ps.len() > 0 {
        lemma_untyped(ps.drop_last());
        let u = label::untyped(ps);
        let up = label::untyped(ps.drop_last());
        assert forall|k: int| 0 <= k < u.len() implies exists|j: int|
            0 <= j < ps.len() && ps[j] == #[trigger] u[k] by {
            if k < up.len() {
                assert(u[k] == up[k]);
                let j = choose|j: int| 0 <= j < ps.drop_last().len() && ps.drop_last()[j] == up[k];
                assert(ps[j] == ps.drop_last()[j]);
            } else {
                assert(ps[ps.len() - 1] == ps.last());
            }
        }
    }
}

/// Relabeled parameters of a line hold no line feed when the label holds none.
proof fn lemma_retyped_no_newline(ps: Seq<Seq<char>>, label: Option<Seq<char>>)
    requires
        forall|k: int| 0 <= k < ps.len() ==> no_newline(#[trigger] ps[k]),
        label matches Some(l) ==> no_newline(l),
    ensures
        forall|k: int| 0 <= k < label::retyped(ps, label).len() ==> no_newline(#[trigger] label::retyped(ps, label)[k]),
{
    lemma_untyped(ps);
    reveal_strlit("TYPE=");
    let r = label::retyped(ps, label);
    let u = label::untyped(ps);
    assert forall|k: int| 0 <= k < r.len() implies no_newline(#[trigger] r[k]) by {
        if k < u.len() {
            assert(r[k] == u[k]);
            let j = choose|j: int| 0 <= j < ps.len() && ps[j] == u[k];
        } else {
            let l = label->0;
            assert(r[k] == "TYPE="@ + l);
            crate::text::lemma_no_newline_concat("TYPE="@, l);
        }
    }
}

/// Strings with the same texts.
fn copy_strings(v: &[String]) -> (r: Vec<String>)
    ensures
        line::texts(r@) == line::texts(v@),
{
    let mut r: Vec<String> = Vec::new();
    let mut i: usize = 0;
    while i < v.len()
        invariant
            i <= v@.len(),
            line::texts(r@) == line::texts(v@).take(i as int),
        decreases v.len() - i,
    {
        let ghost old = line::texts(r@);
        r.push(v[i].clone());
        assert(line::texts(r@) =~= old.push(v@[i as int]@));
        assert(line::texts(v@).take(i + 1) =~= line::texts(v@).take(i as int).push(v@[i as int]@));
        i += 1;
    }
    assert(line::texts(v@).take(v@.len() as int) =~= line::texts(v@));
    r
}

impl Card {
    /// Removes the lines of group `g` (compared ignoring ASCII case): all of
    /// them, or only their `X-ABLabel` lines.
    fn remove_group(&mut self, g: &[char], only_labels: bool)
        requires
            old(self).wf(),
        ensures
            final(self)@ == without(old(self)@, g@, only_labels),
            final(self).wf(),
    {
        let ghost orig = self@;
        let n0 = self.lines.len();
        assert(orig.len() == n0);
        let ab = chars_of("X-ABLabel");
        let mut i: usize = 0;
        let mut j: usize = 0;
        while i < self.lines.len()
            invariant
                j <= orig.len(),
                i <= self@.len(),
                ab@ == "X-ABLabel"@,
                self@.take(i as int) == without(orig.take(j as int), g@, only_labels),
                self@.skip(i as int) == orig.skip(j as int),
                self@.len() - i == orig.len() - j,
                orig.len() <= usize::MAX,
            decreases self.lines.len() - i,
        {
            let ghost cur = self@;
            let l = &self.lines[i];
            assert(orig.take(j + 1).drop_last() == orig.take(j as int));
            assert(cur[i as int] == orig[j as int]) by {
                assert(cur.skip(i as int)[0] == orig.skip(j as int)[0]);
            }
            assert(orig.take(j + 1).last() == l@);
            let in_group = match l.group() {
                Some(h) => eq_ignore_case(&chars_of(h), g),
                None => false,
            };
            let dropped = if only_labels {
                in_group && eq_ignore_case(&chars_of(l.name()), &ab)
            } else {
                in_group
            };
            if dropped {
                self.lines.remove(i);
                assert(self@.take(i as int) =~= cur.take(i as int));
                assert(self@.skip(i as int) =~= cur.skip(i + 1));
                assert(cur.skip(i + 1) =~= orig.skip(j + 1)) by {
                    assert(cur.skip(i + 1) =~= cur.skip(i as int).skip(1));
                    assert(orig.skip(j + 1) =~= orig.skip(j as int).skip(1));
                }
            } else {
                assert(self@.take(i + 1) =~= cur.take(i as int).push(cur[i as int]));
                assert(self@.skip(i + 1) =~= orig.skip(j + 1)) by {
                    assert(cur.skip(i + 1) =~= cur.skip(i as int).skip(1));
                    assert(orig.skip(j + 1) =~= orig.skip(j as int).skip(1));
                }
                i += 1;
            }
            j += 1;
        }
        assert(orig.skip(j as int).len() == 0);
        assert(j == orig.len());
        assert(orig.take(j as int) == orig);
        assert(self@ == self@.take(i as int));
        proof {
            lemma_without_wf(orig, g@, only_labels);
        }
    }
}


/// The text of an optional string slice.
pub open spec fn opt_str(o: Option<&str>) -> Option<Seq<char>> {
    match o {
        Some(s) => Some(s@),
        None => None,
    }
}

/// The lines after updating value `n` of a kind: its value is rewritten
/// only when its unescaped text differs, its `TYPE=` parameters are
/// replaced when its label changes (and the `X-ABLabel` lines of its group
/// removed), and nothing changes when neither does.
pub open spec fn update_lines(
    ls: Seq<LineView>,
    kind: Kind,
    n: int,
    value: Seq<char>,
    label: Option<Seq<char>>,
) -> Seq<LineView> {
    let k = named_indices(ls, kind_name(kind))[n];
    let p = ls[k];
    let relabeled = label_of(ls, p) != label;
    let raw = if unescape_text(p.value) == value {
        p.value
    } else {
        escape_text(value)
    };
    if !relabeled && raw == p.value {
        ls
    } else {
        let params = if relabeled {
            label::retyped(p.params, label)
        } else {
            p.params
        };
        let updated = ls.update(
            k,
            built_line(logical_text(p.group, p.name, params, raw), eol_of(p.raw)),
        );
        if relabeled && p.group is Some {
            without(updated, p.group->0, true)
        } else {
            updated
        }
    }
}

/// The lines after removing value `n` of a kind: all lines of its group
/// when it has one, otherwise only its line.
pub open spec fn remove_lines(ls: Seq<LineView>, kind: Kind, n: int) -> Seq<LineView> {
    let k = named_indices(ls, kind_name(kind))[n];
    match ls[k].group {
        Some(g) => without(ls, g, false),
        None => ls.remove(k),
    }
}

/// Whether an optional string equals an optional string slice.
fn same_label(a: &Option<String>, b: Option<&str>) -> (r: bool)
    ensures
        r == (line::opt_text(*a) == opt_str(b)),
{
    match (a, b) {
        (Some(x), Some(y)) => same_text(&chars_of(x.as_str()), &chars_of(y)),
        (None, None) => true,
        _ => false,
    }
}

/// Kind property names are edited names.
proof fn lemma_kind_name_edited(k: Kind)
    ensures
        is_edited_name(kind_name(k)),
        no_newline(kind_name(k)),
{
    reveal_strlit("TEL");
    reveal_strlit("EMAIL");
}

impl Card {
    /// Updates value `n` of a kind to `value[0]` with `label`, rewriting
    /// only what changes. A label other than the value's own goes into a
    /// `TYPE=` parameter and so holds no line break; the value's own label
    /// may be given back as it reads, whatever it holds.
    pub fn update(&mut self, kind: Kind, n: usize, value: &[String], label: Option<&str>)
        requires
            old(self).wf(),
            n < named_indices(old(self)@, kind_name(kind)).len(),
            value@.len() > 0,
            label matches Some(l) ==> no_newline(l@) || opt_str(label) == label_of(
                old(self)@,
                old(self)@[named_indices(old(self)@, kind_name(kind))[n as int]],
            ),
        ensures
            final(self)@ == update_lines(old(self)@, kind, n as int, value@[0]@, opt_str(label)),
            final(self).wf(),
    {
        let ghost ls = self@;
        let positions = self.positions(kind.property());
        proof {
            lemma_named_indices(ls, kind_name(kind));
            lemma_kind_name_edited(kind);
        }
        let index = positions[n];
        assert(index as int == named_indices(ls, kind_name(kind))[n as int]);
        let lab = self.label(&self.lines[index]);
        let is_relabeled = !same_label(&lab, label);
        let v0 = chars_of(value[0].as_str());
        let cur = chars_of(self.lines[index].value());
        assert(ls[index as int].wf());
        let raw = if same_text(&line::unescape(&cur), &v0) {
            cur
        } else {
            line::escape(&v0)
        };
        if !is_relabeled && same_text(&raw, &chars_of(self.lines[index].value())) {
            return;
        }
        let params = if is_relabeled {
            proof {
                lemma_retyped_no_newline(ls[index as int].params, opt_str(label));
            }
            label::retype(self.lines[index].params(), label)
        } else {
            copy_strings(self.lines[index].params())
        };
        let group = match self.lines[index].group() {
            Some(g) => Some(chars_of(g)),
            None => None,
        };
        proof {
            assert forall|m: int| 0 <= m < params@.len() implies no_newline(#[trigger] params@[m]@) by {
                assert(line::texts(params@)[m] == params@[m]@);
            }
            lemma_edited_not_begin_end(ls[index as int], kind_name(kind));
        }
        let l = self.lines[index].with(params.as_slice(), string_of(&raw).as_str());
        self.lines.set(index, l);
        proof {
            let new = self@;
            assert(new =~= ls.update(index as int, l@));
            let b = choose|j: int| 0 <= j < ls.len() && is_begin(ls[j]);
            let e = choose|j: int| 0 <= j < ls.len() && is_end(ls[j]);
            assert(new[b] == ls[b]);
            assert(new[e] == ls[e]);
            assert forall|m: int| 0 <= m < new.len() implies (#[trigger] new[m]).wf() by {
                if m != index {
                    assert(new[m] == ls[m]);
                }
            }
        }
        if is_relabeled {
            match group {
                Some(g) => self.remove_group(&g, true),
                None => {},
            }
        }
    }

    /// Adds a value of a kind with a label, before `END:VCARD`.
    pub fn add(&mut self, kind: Kind, value: &[String], label: Option<&str>)
        requires
            old(self).wf(),
            value@.len() > 0,
            label matches Some(l) ==> no_newline(l@),
        ensures
            final(self)@ == inserted(
                old(self)@,
                kind_name(kind),
                label::retyped(Seq::empty(), opt_str(label)),
                escape_text(value@[0]@),
            ),
            final(self).wf(),
    {
        let empty: Vec<String> = Vec::new();
        let params = label::retype(empty.as_slice(), label);
        assert(line::texts(empty@) =~= Seq::<Seq<char>>::empty());
        proof {
            lemma_retyped_no_newline(Seq::empty(), opt_str(label));
            assert forall|m: int| 0 <= m < params@.len() implies no_newline(#[trigger] params@[m]@) by {
                assert(line::texts(params@)[m] == params@[m]@);
            }
            lemma_kind_name_edited(kind);
        }
        let raw = line::escape(&chars_of(value[0].as_str()));
        self.insert(kind.property(), params.as_slice(), string_of(&raw).as_str());
    }

    /// Removes value `n` of a kind: the whole group when it has one.
    pub fn remove(&mut self, kind: Kind, n: usize)
        requires
            old(self).wf(),
            n < named_indices(old(self)@, kind_name(kind)).len(),
        ensures
            final(self)@ == remove_lines(old(self)@, kind, n as int),
            final(self).wf(),
    {
        let ghost ls = self@;
        let positions = self.positions(kind.property());
        proof {
            lemma_named_indices(ls, kind_name(kind));
            lemma_kind_name_edited(kind);
        }
        let index = positions[n];
        assert(index as int == named_indices(ls, kind_name(kind))[n as int]);
        match self.lines[index].group() {
            Some(g) => {
                let g = chars_of(g);
                self.remove_group(&g, false);
            },
            None => {
                proof {
                    lemma_edited_not_begin_end(ls[index as int], kind_name(kind));
                }
                self.lines.remove(index);
                proof {
                    let new = self@;
                    assert(new =~= ls.remove(index as int));
                    let b = choose|j: int| 0 <= j < ls.len() && is_begin(ls[j]);
                    let e = choose|j: int| 0 <= j < ls.len() && is_end(ls[j]);
                    assert(is_begin(new[if b < index { b } else { b - 1 }]));
                    assert(is_end(new[if e < index { e } else { e - 1 }]));
                    assert forall|m: int| 0 <= m < new.len() implies (#[trigger] new[m]).wf() by {
                        if m < index {
                            assert(new[m] == ls[m]);
                        } else {
                            assert(new[m] == ls[m + 1]);
                        }
                    }
                }
            },
        }
    }
}


impl Card {
    /// The birthday, if the card has a `BDAY` line.
    pub fn birthday(&self) -> (r: Option<bday::Birthday>)
        ensures
            match r {
                Some(b) => named_index(self@, "BDAY"@) matches Some(i) && bday::birthday_matches(
                    b,
                    bday::bday_date(self@[i].value, self@[i].params),
                    self@[i].value,
                ),
                None => named_index(self@, "BDAY"@) is None,
            },
    {
        let ghost ls = self@;
        match self.position_of("BDAY") {
            Some(i) => {
                proof {
                    let k = choose|k: int| first_named(ls, "BDAY"@, k);
                    assert(k == i) by {
                        if k < i {
                            assert(!eq_ic(ls[k].name, "BDAY"@));
                        } else if k > i {
                            assert(!eq_ic(ls[i as int].name, "BDAY"@));
                        }
                    }
                }
                let l = &self.lines[i];
                Some(bday::Birthday::parse(l.value(), l.params()))
            },
            None => None,
        }
    }
}

/// The texts that are not empty.
pub open spec fn nonempty(ps: Seq<Seq<char>>) -> Seq<Seq<char>>
    decreases ps.len(),
{
    if ps.len() == 0 {
        Seq::empty()
    } else if ps.last().len() == 0 {
        nonempty(ps.drop_last())
    } else {
        nonempty(ps.drop_last()).push(ps.last())
    }
}

/// The display name derived from name parts (prefixes, given, additional,
/// family, suffixes): the parts that are not empty, joined with spaces.
pub open spec fn derived_name(parts: Seq<Seq<char>>) -> Seq<char> {
    join(nonempty(parts), seq![' '])
}

/// The name parts in reading order.
pub open spec fn name_fields() -> Seq<Field> {
    seq![Field::Prefixes, Field::Given, Field::Additional, Field::Family, Field::Suffixes]
}

/// The display name derived from name parts in reading order.
pub fn name_from_parts(parts: &Vec<Vec<char>>) -> (r: Vec<char>)
    ensures
        r@ == derived_name(char_seqs(parts@)),
{
    let ghost ps = char_seqs(parts@);
    let mut kept: Vec<Vec<char>> = Vec::new();
    let mut i: usize = 0;
    while i < parts.len()
        invariant
            i <= parts@.len(),
            ps == char_seqs(parts@),
            char_seqs(kept@) == nonempty(ps.take(i as int)),
        decreases parts.len() - i,
    {
        assert(ps.take(i + 1).drop_last() == ps.take(i as int));
        if parts[i].len() > 0 {
            let part = crate::text::copy_range(parts[i].as_slice(), 0, parts[i].len());
            assert(part@ == parts@[i as int]@);
            let ghost old = char_seqs(kept@);
            kept.push(part);
            assert(char_seqs(kept@) =~= old.push(ps[i as int]));
        }
        i += 1;
    }
    assert(ps.take(parts@.len() as int) == ps);
    let space = [' '];
    assert(space@ == seq![' ']);
    join_texts(&kept, &space)
}

/// The display name derived from the name parts that `part` gives: the
/// parts that are not empty, in reading order, joined with spaces.
pub fn derived_display_name<F: Fn(Field) -> String>(part: F) -> (r: String)
    requires
        forall|f: Field| part.requires((f,)),
    ensures
        exists|a: String, b: String, c: String, d: String, e: String|
            part.ensures((Field::Prefixes,), a) && part.ensures((Field::Given,), b) && part.ensures(
                (Field::Additional,),
                c,
            ) && part.ensures((Field::Family,), d) && part.ensures((Field::Suffixes,), e) && r@
                == derived_name(seq![a@, b@, c@, d@, e@]),
{
    let a = part(Field::Prefixes);
    let b = part(Field::Given);
    let c = part(Field::Additional);
    let d = part(Field::Family);
    let e = part(Field::Suffixes);
    let mut parts: Vec<Vec<char>> = Vec::new();
    parts.push(chars_of(a.as_str()));
    parts.push(chars_of(b.as_str()));
    parts.push(chars_of(c.as_str()));
    parts.push(chars_of(d.as_str()));
    parts.push(chars_of(e.as_str()));
    assert(char_seqs(parts@) =~= seq![a@, b@, c@, d@, e@]);
    string_of(&name_from_parts(&parts))
}

} // verus!
