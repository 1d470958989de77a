//! An address book on disk: `.vcf` files, each holding one card or a bundle
//! of cards, read into cards and the reasons some could not be read.
use crate::card::line::LineView;
use crate::card::{parse_card, Card, Defect};
use crate::order::{key_view, keys_view, sorted_order, stable_order};
use crate::text::{chars_of, same_bytes};
use vstd::prelude::*;

verus! {

/// Where a card came from: its file and its position in the file's bundle.
pub type Location = (String, usize);

/// A file, or one card of a bundle, that could not be read as a card.
#[derive(Debug)]
pub struct Skipped {
    pub path: String,
    pub position: Option<usize>,
    pub defect: Defect,
}

/// The cards of an address book, the raw chunks of each file, and what
/// was skipped.
#[derive(Debug)]
pub struct AddressBook {
    pub path: String,
    pub cards: Vec<(Location, Card)>,
    pub files: Vec<(String, Vec<Vec<u8>>)>,
    pub skipped: Vec<Skipped>,
}

impl Default for AddressBook {
    /// An address book with nothing in it.
    fn default() -> (b: Self)
        ensures
            b.path@.len() == 0,
            b.cards@.len() == 0,
            b.files@.len() == 0,
            b.skipped@.len() == 0,
    {
        AddressBook { path: String::new(), cards: Vec::new(), files: Vec::new(), skipped: Vec::new() }
    }
}

/// How a file on disk stands against the bytes it was loaded with.
#[derive(Debug, Clone, Copy, PartialEq, Eq, Structural)]
pub enum Conflict {
    Changed,
    Deleted,
}

/// The conflict between what is on disk now (`None` when the file is gone)
/// and the bytes it was loaded with.
pub open spec fn conflict_of(on_disk: Option<Seq<u8>>, loaded: Seq<u8>) -> Option<Conflict> {
    match on_disk {
        None => Some(Conflict::Deleted),
        Some(b) => if b == loaded {
            None
        } else {
            Some(Conflict::Changed)
        },
    }
}

/// Whether the file on disk changed or went away since it was loaded.
pub fn conflict(on_disk: Option<&[u8]>, loaded: &[u8]) -> (r: Option<Conflict>)
    ensures
        r == conflict_of(
            match on_disk {
                Some(b) => Some(b@),
                None => None,
            },
            loaded@,
        ),
{
    match on_disk {
        None => Some(Conflict::Deleted),
        Some(b) => {
            if same_bytes(b, loaded) {
                None
            } else {
                Some(Conflict::Changed)
            }
        },
    }
}

/// The bytes of some chunks, one after the other.
pub open spec fn flat(r: Seq<Seq<u8>>) -> Seq<u8>
    decreases r.len(),
{
    if r.len() == 0 {
        Seq::empty()
    } else {
        flat(r.drop_last()) + r.last()
    }
}

/// The bytes of some vectors.
pub open spec fn byte_views(r: Seq<Vec<u8>>) -> Seq<Seq<u8>> {
    r.map_values(|c: Vec<u8>| c@)
}

/// Where chunk `k` starts in the bytes of all chunks.
pub open spec fn offset(r: Seq<Seq<u8>>, k: int) -> int {
    flat(r.take(k)).len() as int
}

/// Whether a byte is ASCII white space.
pub open spec fn is_space(b: u8) -> bool {
    b == 32 || b == 9 || b == 10 || b == 12 || b == 13
}

/// Bytes without trailing ASCII white space.
pub open spec fn trim_end(s: Seq<u8>) -> Seq<u8>
    decreases s.len(),
{
    if s.len() > 0 && is_space(s.last()) {
        trim_end(s.drop_last())
    } else {
        s
    }
}

/// A byte after ASCII lowercasing.
pub open spec fn lower_byte(b: u8) -> int {
    if 65 <= b <= 90 {
        b + 32
    } else {
        b as int
    }
}

/// `BEGIN:VCARD` as bytes.
pub open spec fn begin_vcard() -> Seq<u8> {
    seq![66u8, 69u8, 71u8, 73u8, 78u8, 58u8, 86u8, 67u8, 65u8, 82u8, 68u8]
}

/// Where the line that starts at `p` ends: after its line feed, or at the
/// end of the bytes.
pub open spec fn line_end(b: Seq<u8>, p: int) -> int
    decreases b.len() - p,
{
    if p >= b.len() {
        b.len() as int
    } else if b[p] == 10 {
        p + 1
    } else {
        line_end(b, p + 1)
    }
}

/// Whether a line starts at `p`.
pub open spec fn line_start(b: Seq<u8>, p: int) -> bool {
    p == 0 || (0 < p <= b.len() && b[p - 1] == 10)
}

/// Whether a `BEGIN:VCARD` line (in any case, trailing white space aside)
/// starts at `p`.
pub open spec fn begin_at(b: Seq<u8>, p: int) -> bool {
    let t = trim_end(b.subrange(p, line_end(b, p)));
    &&& 0 <= p < b.len()
    &&& line_start(b, p)
    &&& t.len() == begin_vcard().len()
    &&& forall|i: int| 0 <= i < t.len() ==> lower_byte(#[trigger] t[i]) == lower_byte(begin_vcard()[i])
}

/// Whether a bundle is cut at `p`: a `BEGIN:VCARD` line after another.
pub open spec fn cut_at(b: Seq<u8>, p: int) -> bool {
    begin_at(b, p) && exists|q: int| 0 <= q < p && begin_at(b, q)
}

/// `r` is `b` cut before every `BEGIN:VCARD` line but the first, into
/// chunks that are not empty.
pub open spec fn split_of(b: Seq<u8>, r: Seq<Seq<u8>>) -> bool {
    &&& flat(r) == b
    &&& forall|k: int| 0 <= k < r.len() ==> (#[trigger] r[k]).len() > 0
    &&& forall|k: int| 0 < k < r.len() ==> cut_at(b, #[trigger] offset(r, k))
    &&& forall|p: int| #[trigger] cut_at(b, p) ==> exists|k: int| 0 < k < r.len() && #[trigger] offset(r, k) == p
}

/// Where chunk `k + 1` starts: right after chunk `k`.
proof fn lemma_offset_next(r: Seq<Seq<u8>>, k: int)
    requires
        0 <= k < r.len(),
    ensures
        offset(r, k + 1) == offset(r, k) + r[k].len(),
{
    assert(r.take(k + 1).drop_last() =~= r.take(k));
}

/// Chunks start no earlier than the chunks before them.
proof fn lemma_offset_mono(r: Seq<Seq<u8>>, i: int, j: int)
    requires
        0 <= i <= j <= r.len(),
    ensures
        offset(r, i) <= offset(r, j),
    decreases j - i,
{
    if i < j {
        lemma_offset_next(r, j - 1);
        lemma_offset_mono(r, i, j - 1);
    }
}

/// The chunks of a split concatenate to the bytes, and none is empty; every
/// chunk but the first starts with a `BEGIN:VCARD` line, and no chunk holds
/// two of them.
pub proof fn lemma_split_chunks(b: Seq<u8>, r: Seq<Seq<u8>>)
    requires
        split_of(b, r),
    ensures
        flat(r) == b,
        forall|k: int| 0 <= k < r.len() ==> (#[trigger] r[k]).len() > 0,
        forall|k: int| 0 < k < r.len() ==> begin_at(b, #[trigger] offset(r, k)),
        forall|k: int, p1: int, p2: int|
            #![trigger r[k], begin_at(b, p1), begin_at(b, p2)]
            0 <= k < r.len() && offset(r, k) <= p1 < p2 < offset(r, k) + r[k].len() && begin_at(b, p1)
                ==> !begin_at(b, p2),
{
    assert forall|k: int, p1: int, p2: int|
        #![trigger r[k], begin_at(b, p1), begin_at(b, p2)]
        0 <= k < r.len() && offset(r, k) <= p1 < p2 < offset(r, k) + r[k].len() && begin_at(b, p1)
            implies !begin_at(b, p2) by {
        if begin_at(b, p2) {
            assert(p1 >= 0) by {
                lemma_offset_mono(r, 0, k);
            }
            assert(cut_at(b, p2));
            let j = choose|j: int| 0 < j < r.len() && #[trigger] offset(r, j) == p2;
            lemma_offset_next(r, k);
            if j <= k {
                lemma_offset_mono(r, j, k);
            } else {
                lemma_offset_mono(r, k + 1, j);
            }
        }
    }
}

proof fn lemma_flat_push(r: Seq<Seq<u8>>, c: Seq<u8>)
    ensures
        flat(r.push(c)) == flat(r) + c,
        forall|k: int| 0 <= k <= r.len() ==> #[trigger] offset(r.push(c), k) == offset(r, k),
{
    assert(r.push(c).drop_last() =~= r);
    assert forall|k: int| 0 <= k <= r.len() implies #[trigger] offset(r.push(c), k) == offset(r, k) by {
        assert(r.push(c).take(k) =~= r.take(k));
    }
}

/// Where the line that starts at `p` ends.
fn find_line_end(b: &[u8], p: usize) -> (e: usize)
    requires
        p < b@.len(),
    ensures
        e == line_end(b@, p as int),
        p < e <= b@.len(),
        forall|j: int| p <= j < e - 1 ==> b@[j] != 10,
        e < b@.len() ==> b@[e - 1] == 10,
{
    let n = b.len();
    let mut j = p;
    while j < n && b[j] != 10
        invariant
            p <= j <= n,
            n == b@.len(),
            line_end(b@, p as int) == line_end(b@, j as int),
            forall|k: int| p <= k < j ==> b@[k] != 10,
        decreases n - j,
    {
        j += 1;
    }
    if j < n {
        j + 1
    } else {
        j
    }
}

/// Whether the line `b[p..e]` is a `BEGIN:VCARD` line.
fn is_begin_line(b: &[u8], p: usize, e: usize) -> (r: bool)
    requires
        p < e <= b@.len(),
        e == line_end(b@, p as int),
        p == 0 || b@[p - 1] == 10,
    ensures
        r == begin_at(b@, p as int),
{
    let mut t = e;
    while t > p && (b[t - 1] == 32 || b[t - 1] == 9 || b[t - 1] == 10 || b[t - 1] == 12 || b[t - 1] == 13)
        invariant
            p <= t <= e <= b@.len(),
            trim_end(b@.subrange(p as int, e as int)) == trim_end(b@.subrange(p as int, t as int)),
        decreases t,
    {
        assert(b@.subrange(p as int, t as int).drop_last() =~= b@.subrange(p as int, t - 1));
        t -= 1;
    }
    let ghost s = b@.subrange(p as int, t as int);
    assert(trim_end(s) == s);
    assert(begin_vcard().len() == 11);
    if t - p != 11 {
        return false;
    }
    let word: [u8; 11] = [66, 69, 71, 73, 78, 58, 86, 67, 65, 82, 68];
    assert(word@ == begin_vcard());
    let mut i: usize = 0;
    while i < 11
        invariant
            t == p + 11,
            t <= b@.len(),
            trim_end(b@.subrange(p as int, line_end(b@, p as int))) == s,
            p == 0 || b@[p - 1] == 10,
            s == b@.subrange(p as int, t as int),
            word@ == begin_vcard(),
            i <= 11,
            forall|k: int| 0 <= k < i ==> lower_byte(#[trigger] s[k]) == lower_byte(begin_vcard()[k]),
        decreases 11 - i,
    {
        let x = b[p + i];
        let lx: u8 = if x >= 65 && x <= 90 { x + 32 } else { x };
        let y = word[i];
        let ly: u8 = if y >= 65 && y <= 90 { y + 32 } else { y };
        if lx != ly {
            assert(lower_byte(s[i as int]) != lower_byte(begin_vcard()[i as int]));
            return false;
        }
        i += 1;
    }
    true
}

/// Cuts the bytes of a `.vcf` file into one chunk per card: before every
/// `BEGIN:VCARD` line but the first, so that what precedes the first card
/// stays with it. Empty bytes give no chunk.
#[verifier::rlimit(60)]
pub fn split(bytes: &[u8]) -> (r: Vec<Vec<u8>>)
    ensures
        split_of(bytes@, byte_views(r@)),
{
    let ghost b = bytes@;
    let n = bytes.len();
    let mut chunks: Vec<Vec<u8>> = Vec::new();
    let mut start: usize = 0;
    let mut pos: usize = 0;
    let mut has_begin = false;
    while pos < n
        invariant
            b == bytes@,
            n == b.len(),
            start <= pos <= n,
            start < pos || pos == 0,
            pos == n || line_start(b, pos as int),
            has_begin == exists|q: int| 0 <= q < pos && begin_at(b, q),
            flat(byte_views(chunks@)) == b.subrange(0, start as int),
            forall|k: int| 0 <= k < chunks@.len() ==> (#[trigger] chunks@[k])@.len() > 0,
            forall|k: int| 0 < k < chunks@.len() ==> cut_at(b, #[trigger] offset(byte_views(chunks@), k)),
            chunks@.len() == 0 <==> start == 0,
            start > 0 ==> cut_at(b, start as int),
            forall|p: int|
                0 <= p < pos && #[trigger] cut_at(b, p) ==> exists|k: int|
                    0 < k <= chunks@.len() && #[trigger] offset(byte_views(chunks@), k) == p,
        decreases n - pos,
    {
        let e = find_line_end(bytes, pos);
        let begin = is_begin_line(bytes, pos, e);
        let ghost old_chunks = byte_views(chunks@);
        proof {
            assert forall|q: int| pos < q < e implies !line_start(b, q) by {}
            assert(old_chunks.take(old_chunks.len() as int) =~= old_chunks);
        }
        if begin {
            if has_begin {
                let c = crate::text::copy_range(bytes, start, pos);
                chunks.push(c);
                proof {
                    assert(byte_views(chunks@) =~= old_chunks.push(c@));
                    lemma_flat_push(old_chunks, c@);
                    assert(b.subrange(0, start as int) + c@ =~= b.subrange(0, pos as int));
                    let nc = byte_views(chunks@);
                    assert(nc.take(nc.len() as int) =~= nc);
                    assert forall|k: int| 0 < k < nc.len() implies cut_at(b, #[trigger] offset(nc, k)) by {
                        if k < old_chunks.len() {
                            assert(offset(nc, k) == offset(old_chunks, k));
                        } else {
                            assert(offset(nc, k) == start);
                        }
                    }
                    assert forall|p: int|
                        0 <= p < e && #[trigger] cut_at(b, p) implies exists|k: int|
                        0 < k <= nc.len() && #[trigger] offset(nc, k) == p by {
                        if p == pos {
                            assert(offset(nc, nc.len() as int) == p);
                        } else {
                            assert(p < pos);
                            let k = choose|k: int| 0 < k <= old_chunks.len() && #[trigger] offset(old_chunks, k) == p;
                            assert(offset(nc, k) == p);
                        }
                    }
                }
                start = pos;
            } else {
                proof {
                    assert forall|p: int| 0 <= p < e && #[trigger] cut_at(b, p) implies false by {
                        if p < pos {
                            let q = choose|q: int| 0 <= q < p && begin_at(b, q);
                        } else if p > pos {
                            assert(!line_start(b, p));
                        }
                    }
                }
            }
            has_begin = true;
        } else {
            proof {
                assert forall|p: int|
                    0 <= p < e && #[trigger] cut_at(b, p) implies exists|k: int|
                    0 < k <= chunks@.len() && #[trigger] offset(byte_views(chunks@), k) == p by {
                    if p >= pos {
                        if p > pos {
                            assert(!line_start(b, p));
                        }
                        assert(false);
                    }
                }
                if exists|q: int| 0 <= q < e && begin_at(b, q) {
                    let q = choose|q: int| 0 <= q < e && begin_at(b, q);
                    if q > pos {
                        assert(!line_start(b, q));
                    }
                    assert(q < pos);
                }
            }
        }
        pos = e;
    }
    if start < n {
        let ghost old_chunks = byte_views(chunks@);
        let c = crate::text::copy_range(bytes, start, n);
        chunks.push(c);
        proof {
            assert(byte_views(chunks@) =~= old_chunks.push(c@));
            lemma_flat_push(old_chunks, c@);
            assert(b.subrange(0, start as int) + c@ =~= b);
            let nc = byte_views(chunks@);
            assert(old_chunks.take(old_chunks.len() as int) =~= old_chunks);
            assert forall|k: int| 0 < k < nc.len() implies cut_at(b, #[trigger] offset(nc, k)) by {
                if k < old_chunks.len() {
                    assert(offset(nc, k) == offset(old_chunks, k));
                } else {
                    assert(offset(nc, k) == start);
                }
            }
            assert forall|p: int| #[trigger] cut_at(b, p) implies exists|k: int|
                0 < k < nc.len() && #[trigger] offset(nc, k) == p by {
                let k = choose|k: int| 0 < k <= old_chunks.len() && #[trigger] offset(old_chunks, k) == p;
                assert(offset(nc, k) == p);
            }
        }
    } else {
        proof {
            assert(b.subrange(0, start as int) =~= b);
        }
    }
    chunks
}

/// Whether the first line feed of `b` is at `i`.
pub open spec fn first_lf(b: Seq<u8>, i: int) -> bool {
    0 <= i < b.len() && b[i] == 10 && forall|j: int| 0 <= j < i ==> b[j] != 10
}

/// Whether the first line of `b` ends in a bare line feed, not in CR LF.
pub open spec fn lf_only(b: Seq<u8>) -> bool {
    exists|i: int| first_lf(b, i) && i > 0 && b[i - 1] != 13
}

/// The line ending of a file, as its first line has it; CR LF, the
/// standard one, when the first line feed follows a carriage return, starts
/// the file, or there is none.
pub open spec fn eol_bytes(b: Seq<u8>) -> Seq<u8> {
    if lf_only(b) {
        seq![10u8]
    } else {
        seq![13u8, 10u8]
    }
}

fn is_lf_only(bytes: &[u8]) -> (r: bool)
    ensures
        r == lf_only(bytes@),
{
    let mut i: usize = 0;
    while i < bytes.len()
        invariant
            i <= bytes@.len(),
            forall|j: int| 0 <= j < i ==> bytes@[j] != 10,
        decreases bytes.len() - i,
    {
        if bytes[i] == 10 {
            assert(first_lf(bytes@, i as int));
            assert forall|k: int| first_lf(bytes@, k) implies k == i by {
                if k < i {
                } else if k > i {
                    assert(bytes@[i as int] != 10);
                }
            }
            return i > 0 && bytes[i - 1] != 13;
        }
        i += 1;
    }
    false
}

/// The line ending a file's lines use: `"\n"` when its first line ends in
/// a bare line feed, else `"\r\n"`.
pub fn eol(bytes: &[u8]) -> (r: &'static str)
    ensures
        r@ == (if lf_only(bytes@) {
            "\n"@
        } else {
            "\r\n"@
        }),
{
    if is_lf_only(bytes) {
        "\n"
    } else {
        "\r\n"
    }
}

/// The chunks of a file with a card appended: the last chunk first gets a
/// line ending (the file's own) if it does not end in one.
pub open spec fn appended(cs: Seq<Seq<u8>>, card: Seq<u8>) -> Seq<Seq<u8>> {
    let n = cs.len();
    if n > 0 && cs[n - 1].len() > 0 && cs[n - 1].last() != 10 {
        cs.update(n - 1, cs[n - 1] + eol_bytes(flat(cs))).push(card)
    } else {
        cs.push(card)
    }
}

pub(crate) fn concat(chunks: &Vec<Vec<u8>>) -> (r: Vec<u8>)
    ensures
        r@ == flat(byte_views(chunks@)),
{
    let ghost cs = byte_views(chunks@);
    let mut r: Vec<u8> = Vec::new();
    let mut i: usize = 0;
    while i < chunks.len()
        invariant
            cs == byte_views(chunks@),
            i <= chunks@.len(),
            r@ == flat(cs.take(i as int)),
        decreases chunks.len() - i,
    {
        let mut k: usize = 0;
        let ghost before = r@;
        while k < chunks[i].len()
            invariant
                i < chunks@.len(),
                k <= chunks@[i as int]@.len(),
                r@ == before + chunks@[i as int]@.take(k as int),
            decreases chunks@[i as int]@.len() - k,
        {
            r.push(chunks[i][k]);
            assert(chunks@[i as int]@.take(k + 1) =~= chunks@[i as int]@.take(k as int).push(chunks@[i as int]@[k as int]));
            k += 1;
        }
        assert(cs.take(i + 1).drop_last() =~= cs.take(i as int));
        assert(chunks@[i as int]@.take(k as int) =~= chunks@[i as int]@);
        i += 1;
    }
    assert(cs.take(cs.len() as int) =~= cs);
    r
}

/// Appends a card to the chunks of a file.
pub fn append(chunks: Vec<Vec<u8>>, card: Vec<u8>) -> (r: Vec<Vec<u8>>)
    ensures
        byte_views(r@) == appended(byte_views(chunks@), card@),
{
    let ghost cs = byte_views(chunks@);
    let mut chunks = chunks;
    let all = concat(&chunks);
    let lf = is_lf_only(&all);
    let n = chunks.len();
    if n > 0 && chunks[n - 1].len() > 0 && chunks[n - 1][chunks[n - 1].len() - 1] != 10 {
        let mut last = chunks.pop().unwrap();
        let ghost before = last@;
        if !lf {
            last.push(13);
        }
        last.push(10);
        assert(last@ =~= before + eol_bytes(flat(cs)));
        chunks.push(last);
        assert(byte_views(chunks@) =~= cs.update(n - 1, cs[n - 1] + eol_bytes(flat(cs))));
    }
    chunks.push(card);
    assert(byte_views(chunks@) =~= appended(cs, card@));
    chunks
}

/// The cards that chunks read as, each with its position.
pub open spec fn parsed(cs: Seq<Seq<u8>>) -> Seq<(int, Seq<LineView>)>
    decreases cs.len(),
{
    if cs.len() == 0 {
        Seq::empty()
    } else {
        let rest = parsed(cs.drop_last());
        match parse_card(cs.last()) {
            Ok(ls) => rest.push(((cs.len() - 1) as int, ls)),
            Err(_) => rest,
        }
    }
}

/// The chunks that do not read as a card, each with its position and why.
pub open spec fn failed(cs: Seq<Seq<u8>>) -> Seq<(int, Defect)>
    decreases cs.len(),
{
    if cs.len() == 0 {
        Seq::empty()
    } else {
        let rest = failed(cs.drop_last());
        match parse_card(cs.last()) {
            Ok(_) => rest,
            Err(d) => rest.push(((cs.len() - 1) as int, d)),
        }
    }
}

/// Cards with their locations, as file, position and lines.
pub open spec fn card_entries(v: Seq<(Location, Card)>) -> Seq<(Seq<char>, int, Seq<LineView>)> {
    v.map_values(|e: (Location, Card)| (e.0.0@, e.0.1 as int, e.1@))
}

/// A position in a bundle, counted from one.
pub open spec fn opt_int(p: Option<usize>) -> Option<int> {
    match p {
        Some(x) => Some(x as int),
        None => None,
    }
}

/// Skipped chunks as file, position in the bundle and defect.
pub open spec fn skipped_entries(v: Seq<Skipped>) -> Seq<(Seq<char>, Option<int>, Defect)> {
    v.map_values(|s: Skipped| (s.path@, opt_int(s.position), s.defect))
}

/// The cards of one file's chunks, located in the file at `path`.
pub open spec fn located(path: Seq<char>, cs: Seq<Seq<u8>>) -> Seq<(Seq<char>, int, Seq<LineView>)> {
    parsed(cs).map_values(|e: (int, Seq<LineView>)| (path, e.0, e.1))
}

/// Skipped chunks of the file at `path`, given their positions and
/// defects; a position is given only in a bundle.
pub open spec fn skipped_from(path: Seq<char>, bundle: bool, f: Seq<(int, Defect)>) -> Seq<
    (Seq<char>, Option<int>, Defect),
> {
    f.map_values(
        |e: (int, Defect)|
            (
                path,
                if bundle {
                    Some(e.0 + 1)
                } else {
                    None
                },
                e.1,
            ),
    )
}

/// What of one file's chunks was skipped; a position is given only in a
/// bundle of more than one chunk.
pub open spec fn skipped_in(path: Seq<char>, cs: Seq<Seq<u8>>) -> Seq<(Seq<char>, Option<int>, Defect)> {
    skipped_from(path, cs.len() > 1, failed(cs))
}

/// Reads each chunk of a file as a card: the cards that read, located by
/// file and position, and the chunks that did not, with their defects.
pub fn parse(path: &str, chunks: &[Vec<u8>]) -> (r: (Vec<(Location, Card)>, Vec<Skipped>))
    ensures
        card_entries(r.0@) == located(path@, byte_views(chunks@)),
        skipped_entries(r.1@) == skipped_in(path@, byte_views(chunks@)),
        forall|k: int| 0 <= k < r.0@.len() ==> (#[trigger] r.0@[k]).1.wf(),
{
    let ghost cs = byte_views(chunks@);
    let is_bundle = chunks.len() > 1;
    let mut cards: Vec<(Location, Card)> = Vec::new();
    let mut skipped: Vec<Skipped> = Vec::new();
    let mut i: usize = 0;
    while i < chunks.len()
        invariant
            cs == byte_views(chunks@),
            is_bundle == (chunks@.len() > 1),
            i <= chunks@.len(),
            card_entries(cards@) == located(path@, cs.take(i as int)),
            skipped_entries(skipped@) == skipped_from(path@, cs.len() > 1, failed(cs.take(i as int))),
            forall|k: int| 0 <= k < cards@.len() ==> (#[trigger] cards@[k]).1.wf(),
        decreases chunks.len() - i,
    {
        assert(cs.take(i + 1).drop_last() =~= cs.take(i as int));
        assert(cs.take(i + 1).last() == chunks@[i as int]@);
        let ghost pc = parsed(cs.take(i as int));
        let ghost fc = failed(cs.take(i as int));
        match Card::parse(&chunks[i]) {
            Ok(card) => {
                let ghost before = card_entries(cards@);
                let p = path.to_owned();
                cards.push(((p, i), card));
                assert(parsed(cs.take(i + 1)) == pc.push((i as int, card@)));
                assert(failed(cs.take(i + 1)) == fc);
                assert(card_entries(cards@) =~= before.push((path@, i as int, card@)));
                assert(card_entries(cards@) =~= located(path@, cs.take(i + 1)));
            },
            Err(defect) => {
                let position = if is_bundle {
                    Some(i + 1)
                } else {
                    None
                };
                let ghost before = skipped_entries(skipped@);
                let p = path.to_owned();
                skipped.push(Skipped { path: p, position, defect });
                assert(opt_int(position) == (if cs.len() > 1 {
                    Some(i + 1)
                } else {
                    None::<int>
                }));
                assert(skipped_entries(skipped@) =~= before.push((path@, opt_int(position), defect)));
                assert(parsed(cs.take(i + 1)) == pc);
                assert(failed(cs.take(i + 1)) == fc.push((i as int, defect)));
                assert(skipped_entries(skipped@) =~= skipped_from(path@, cs.len() > 1, failed(cs.take(i + 1))));
            },
        }
        i += 1;
    }
    assert(cs.take(cs.len() as int) =~= cs);
    (cards, skipped)
}

/// Files as path and chunks.
pub open spec fn file_views(v: Seq<(String, Vec<Vec<u8>>)>) -> Seq<(Seq<char>, Seq<Seq<u8>>)> {
    v.map_values(|e: (String, Vec<Vec<u8>>)| (e.0@, byte_views(e.1@)))
}

/// The cards of some files, file by file.
pub open spec fn book_cards(fs: Seq<(Seq<char>, Seq<Seq<u8>>)>) -> Seq<(Seq<char>, int, Seq<LineView>)>
    decreases fs.len(),
{
    if fs.len() == 0 {
        Seq::empty()
    } else {
        book_cards(fs.drop_last()) + located(fs.last().0, fs.last().1)
    }
}

/// What was skipped in some files, file by file.
pub open spec fn book_skips(fs: Seq<(Seq<char>, Seq<Seq<u8>>)>) -> Seq<(Seq<char>, Option<int>, Defect)>
    decreases fs.len(),
{
    if fs.len() == 0 {
        Seq::empty()
    } else {
        book_skips(fs.drop_last()) + skipped_in(fs.last().0, fs.last().1)
    }
}

/// The paths of skipped chunks as sort keys.
pub open spec fn path_keys(s: Seq<(Seq<char>, Option<int>, Defect)>) -> Seq<Seq<Seq<char>>> {
    s.map_values(|e: (Seq<char>, Option<int>, Defect)| seq![e.0])
}

/// `book` was read from `files` (path and bytes, in the order given): each
/// file cut into chunks, the cards of all files in that order, and what was
/// skipped sorted by path, in file order for the same path.
pub open spec fn read_from(book: AddressBook, path: Seq<char>, files: Seq<(Seq<char>, Seq<u8>)>) -> bool {
    let fs = file_views(book.files@);
    let skips = book_skips(fs);
    &&& book.path@ == path
    &&& book.files@.len() == files.len()
    &&& forall|k: int|
        0 <= k < files.len() ==> (#[trigger] fs[k]).0 == files[k].0 && split_of(files[k].1, fs[k].1)
    &&& card_entries(book.cards@) == book_cards(fs)
    &&& exists|ord: Seq<usize>|
        sorted_order(path_keys(skips), ord) && skipped_entries(book.skipped@) == ord.map_values(
            |i: usize| skips[i as int],
        )
}

/// Paths and bytes as texts and byte sequences.
pub open spec fn input_views(v: Seq<(String, Vec<u8>)>) -> Seq<(Seq<char>, Seq<u8>)> {
    v.map_values(|e: (String, Vec<u8>)| (e.0@, e.1@))
}

/// Reads an address book from the bytes of its `.vcf` files.
pub fn from_files(path: &str, files: &Vec<(String, Vec<u8>)>) -> (book: AddressBook)
    ensures
        read_from(book, path@, input_views(files@)),
        forall|k: int| 0 <= k < book.cards@.len() ==> (#[trigger] book.cards@[k]).1.wf(),
{
    let ghost ins = input_views(files@);
    let mut cards: Vec<(Location, Card)> = Vec::new();
    let mut chunked: Vec<(String, Vec<Vec<u8>>)> = Vec::new();
    let mut skipped: Vec<Skipped> = Vec::new();
    let mut i: usize = 0;
    while i < files.len()
        invariant
            ins == input_views(files@),
            i <= files@.len(),
            chunked@.len() == i,
            forall|k: int|
                0 <= k < i ==> (#[trigger] file_views(chunked@)[k]).0 == ins[k].0 && split_of(
                    ins[k].1,
                    file_views(chunked@)[k].1,
                ),
            card_entries(cards@) == book_cards(file_views(chunked@)),
            skipped_entries(skipped@) == book_skips(file_views(chunked@)),
            forall|k: int| 0 <= k < cards@.len() ==> (#[trigger] cards@[k]).1.wf(),
        decreases files.len() - i,
    {
        let chunks = split(&files[i].1);
        let (mut cs, mut ss) = parse(files[i].0.as_str(), &chunks);
        let ghost before = file_views(chunked@);
        let ghost cards_before = card_entries(cards@);
        let ghost skipped_before = skipped_entries(skipped@);
        let ghost cs_view = card_entries(cs@);
        let ghost ss_view = skipped_entries(ss@);
        cards.append(&mut cs);
        skipped.append(&mut ss);
        let name = files[i].0.clone();
        chunked.push((name, chunks));
        proof {
            let fs = file_views(chunked@);
            assert(fs =~= before.push((ins[i as int].0, byte_views(chunks@))));
            assert(fs.drop_last() =~= before);
            assert(card_entries(cards@) =~= cards_before + cs_view);
            assert(skipped_entries(skipped@) =~= skipped_before + ss_view);
        }
        i += 1;
    }
    let ghost fs = file_views(chunked@);
    let ghost skips = book_skips(fs);
    let mut keys: Vec<Vec<Vec<char>>> = Vec::new();
    let mut k: usize = 0;
    while k < skipped.len()
        invariant
            skipped_entries(skipped@) == skips,
            k <= skipped@.len(),
            keys_view(keys@) == path_keys(skips).take(k as int),
            forall|x: int| 0 <= x < keys@.len() ==> (#[trigger] keys@[x])@.len() == 1,
        decreases skipped.len() - k,
    {
        let mut key: Vec<Vec<char>> = Vec::new();
        key.push(chars_of(skipped[k].path.as_str()));
        assert(skipped_entries(skipped@)[k as int].0 == skipped@[k as int].path@);
        assert(key_view(key) =~= seq![skips[k as int].0]);
        let ghost before = keys_view(keys@);
        keys.push(key);
        assert(keys_view(keys@) =~= before.push(key_view(key)));
        assert(path_keys(skips).take(k + 1) =~= path_keys(skips).take(k as int).push(seq![skips[k as int].0]));
        assert(keys_view(keys@) =~= path_keys(skips).take(k + 1));
        k += 1;
    }
    assert(keys_view(keys@) =~= path_keys(skips));
    let ord = stable_order(&keys);
    let mut sorted: Vec<Skipped> = Vec::new();
    let mut j: usize = 0;
    while j < ord.len()
        invariant
            skipped_entries(skipped@) == skips,
            sorted_order(path_keys(skips), ord@),
            j <= ord@.len(),
            skipped_entries(sorted@) == ord@.take(j as int).map_values(|x: usize| skips[x as int]),
        decreases ord.len() - j,
    {
        let x = ord[j];
        assert(x < skipped@.len());
        let s = &skipped[x];
        let p = s.path.clone();
        let ghost before = skipped_entries(sorted@);
        sorted.push(Skipped { path: p, position: s.position, defect: s.defect });
        assert(skipped_entries(skipped@)[x as int] == skips[x as int]);
        assert(skipped_entries(sorted@) =~= before.push(skips[x as int]));
        assert(ord@.take(j + 1) =~= ord@.take(j as int).push(x));
        assert(skipped_entries(sorted@) =~= ord@.take(j + 1).map_values(|x: usize| skips[x as int]));
        j += 1;
    }
    assert(ord@.take(ord@.len() as int) =~= ord@);
    let book = AddressBook { path: path.to_owned(), cards, files: chunked, skipped: sorted };
    assert(file_views(book.files@) == fs);
    book
}

} // verus!
