use vstd::prelude::*;

verus! {

/// The characters of a string slice, in order.
pub fn chars_of(s: &str) -> (v: Vec<char>)
    ensures
        v@ == s@,
{
    let mut v: Vec<char> = Vec::new();
    for c in it: s.chars()
        invariant
            v@ == it.seq().take(it.index()),
            it.seq() == s@,
    {
        v.push(c);
    }
    v
}

/// Appends one character to a `String` with `String::push`; the contract
/// claims that the text afterwards is the text before with the character
/// added at its end.
#[verifier::external_body]
pub(crate) fn push_char(s: &mut String, c: char)
    ensures
        final(s)@ == old(s)@.push(c),
{
    s.push(c);
}

/// A `String` holding the given characters.
pub fn string_of(v: &[char]) -> (s: String)
    ensures
        s@ == v@,
{
    let mut s = String::new();
    let mut i: usize = 0;
    while i < v.len()
        invariant
            i <= v.len(),
            s@ == v@.take(i as int),
        decreases v.len() - i,
    {
        push_char(&mut s, v[i]);
        assert(v@.take(i + 1) == v@.take(i as int).push(v@[i as int]));
        i += 1;
    }
    assert(v@.take(v.len() as int) == v@);
    s
}

} // verus!

verus! {

/// No character of `s` is a line feed.
pub open spec fn no_newline(s: Seq<char>) -> bool {
    forall|i: int| 0 <= i < s.len() ==> s[i] != '\n'
}

/// The code of a character after ASCII lowercasing.
pub open spec fn lower_code(c: char) -> int {
    if 'A' <= c && c <= 'Z' {
        (c as u32) + 32
    } else {
        c as u32 as int
    }
}

/// Equality of two texts that ignores ASCII case.
pub open spec fn eq_ic(a: Seq<char>, b: Seq<char>) -> bool {
    a.len() == b.len() && forall|i: int| 0 <= i < a.len() ==> lower_code(a[i]) == lower_code(b[i])
}

/// The code of a character after ASCII lowercasing.
pub fn lower_code_of(c: char) -> (r: u32)
    ensures
        r == lower_code(c),
{
    if c >= 'A' && c <= 'Z' {
        c as u32 + 32
    } else {
        c as u32
    }
}

/// Whether two texts are equal, ignoring ASCII case.
pub fn eq_ignore_case(a: &[char], b: &[char]) -> (r: bool)
    ensures
        r == eq_ic(a@, b@),
{
    if a.len() != b.len() {
        return false;
    }
    let mut i: usize = 0;
    while i < a.len()
        invariant
            a.len() == b.len(),
            i <= a.len(),
            forall|j: int| 0 <= j < i ==> lower_code(a@[j]) == lower_code(b@[j]),
        decreases a.len() - i,
    {
        if lower_code_of(a[i]) != lower_code_of(b[i]) {
            return false;
        }
        i += 1;
    }
    true
}

/// A copy of `v[a..b]`.
pub fn copy_range<T: Copy>(v: &[T], a: usize, b: usize) -> (r: Vec<T>)
    requires
        a <= b <= v@.len(),
    ensures
        r@ == v@.subrange(a as int, b as int),
{
    let mut r: Vec<T> = Vec::new();
    let mut i = a;
    while i < b
        invariant
            a <= i <= b,
            b <= v@.len(),
            r@ == v@.subrange(a as int, i as int),
        decreases b - i,
    {
        r.push(v[i]);
        assert(v@.subrange(a as int, i + 1) == v@.subrange(a as int, i as int).push(v@[i as int]));
        i += 1;
    }
    r
}

/// Decodes bytes with `String::from_utf8`; the contract claims that it
/// succeeds exactly on valid UTF-8 and then holds the characters the bytes
/// encode, and gives `None` otherwise.
#[verifier::external_body]
pub(crate) fn decode_utf8_bytes(bytes: Vec<u8>) -> (s: Option<String>)
    ensures
        s is Some <==> vstd::utf8::valid_utf8(bytes@),
        s matches Some(t) ==> t@ == vstd::utf8::decode_utf8(bytes@),
{
    String::from_utf8(bytes).ok()
}

/// The UTF-8 encoding of a text.
pub fn encode_chars(v: &[char]) -> (r: Vec<u8>)
    ensures
        r@ == vstd::utf8::encode_utf8(v@),
{
    let s = string_of(v);
    s.as_str().as_bytes_vec()
}

} // verus!

verus! {

/// Appends characters to a vector.
pub fn push_all(out: &mut Vec<char>, s: &[char])
    ensures
        final(out)@ == old(out)@ + s@,
{
    let mut i: usize = 0;
    while i < s.len()
        invariant
            i <= s@.len(),
            out@ == old(out)@ + s@.take(i as int),
        decreases s.len() - i,
    {
        out.push(s[i]);
        assert(s@.take(i + 1) == s@.take(i as int).push(s@[i as int]));
        i += 1;
    }
    assert(s@.take(s@.len() as int) == s@);
}

/// Texts without line feeds concatenate to a text without line feeds.
pub proof fn lemma_no_newline_concat(a: Seq<char>, b: Seq<char>)
    requires
        no_newline(a),
        no_newline(b),
    ensures
        no_newline(a + b),
{
    assert forall|i: int| 0 <= i < (a + b).len() implies (a + b)[i] != '\n' by {
        if i < a.len() {
            assert((a + b)[i] == a[i]);
        } else {
            assert((a + b)[i] == b[i - a.len()]);
        }
    }
}

} // verus!

verus! {

/// The lowercase form of a text as `str::to_lowercase` computes it (Unicode
/// lowercase mapping).
pub uninterp spec fn lowercase(s: Seq<char>) -> Seq<char>;

/// Lowercases a text with `str::to_lowercase`; the contract claims only that
/// the result depends on the text alone (it is `lowercase` of it), not what
/// the Unicode lowercase mapping gives.
#[verifier::external_body]
pub(crate) fn to_lowercase(s: &str) -> (r: String)
    ensures
        r@ == lowercase(s@),
{
    s.to_lowercase()
}

/// The texts of some strings.
pub fn chars_of_strings(v: &[String]) -> (r: Vec<Vec<char>>)
    ensures
        r@.len() == v@.len(),
        forall|k: int| 0 <= k < v@.len() ==> (#[trigger] r@[k])@ == v@[k]@,
{
    let mut r: Vec<Vec<char>> = Vec::new();
    let mut i: usize = 0;
    while i < v.len()
        invariant
            i <= v@.len(),
            r@.len() == i,
            forall|k: int| 0 <= k < i ==> (#[trigger] r@[k])@ == v@[k]@,
        decreases v.len() - i,
    {
        r.push(chars_of(v[i].as_str()));
        i += 1;
    }
    r
}

/// Whether a text starts with a prefix.
pub fn starts_with(s: &[char], p: &[char]) -> (r: bool)
    ensures
        r == (p@.len() <= s@.len() && s@.take(p@.len() as int) == p@),
{
    if p.len() > s.len() {
        return false;
    }
    let mut i: usize = 0;
    while i < p.len()
        invariant
            p@.len() <= s@.len(),
            i <= p@.len(),
            forall|j: int| 0 <= j < i ==> s@[j] == p@[j],
        decreases p.len() - i,
    {
        if s[i] != p[i] {
            assert(s@.take(p@.len() as int)[i as int] != p@[i as int]);
            return false;
        }
        i += 1;
    }
    assert(s@.take(p@.len() as int) =~= p@);
    true
}

/// Whether a text ends with a suffix.
pub fn ends_with(s: &[char], p: &[char]) -> (r: bool)
    ensures
        r == (p@.len() <= s@.len() && s@.skip(s@.len() - p@.len()) == p@),
{
    if p.len() > s.len() {
        return false;
    }
    let off = s.len() - p.len();
    let mut i: usize = 0;
    while i < p.len()
        invariant
            off + p@.len() == s@.len(),
            s@.len() == s.len(),
            p@.len() == p.len(),
            i <= p@.len(),
            forall|j: int| 0 <= j < i ==> s@[off + j] == p@[j],
        decreases p.len() - i,
    {
        if s[off + i] != p[i] {
            assert(s@.skip(off as int)[i as int] != p@[i as int]);
            return false;
        }
        i += 1;
    }
    assert(s@.skip(off as int) =~= p@);
    true
}

} // verus!

verus! {

/// The character of a decimal digit.
pub open spec fn digit_char(d: int) -> char {
    if d == 0 { '0' } else if d == 1 { '1' } else if d == 2 { '2' } else if d == 3 { '3' } else if d == 4 {
        '4'
    } else if d == 5 { '5' } else if d == 6 { '6' } else if d == 7 { '7' } else if d == 8 { '8' } else {
        '9'
    }
}

/// The decimal digits of a number, without leading zeros.
pub open spec fn decimal(n: nat) -> Seq<char>
    decreases n,
{
    if n < 10 {
        seq![digit_char(n as int)]
    } else {
        decimal(n / 10) + seq![digit_char((n % 10) as int)]
    }
}

/// A text padded with leading zeros to at least `width` characters.
pub open spec fn zero_pad(s: Seq<char>, width: int) -> Seq<char> {
    if s.len() < width {
        Seq::new((width - s.len()) as nat, |i: int| '0') + s
    } else {
        s
    }
}

fn digit(d: u64) -> (c: char)
    requires
        d < 10,
    ensures
        c == digit_char(d as int),
{
    if d == 0 { '0' } else if d == 1 { '1' } else if d == 2 { '2' } else if d == 3 { '3' } else if d == 4 {
        '4'
    } else if d == 5 { '5' } else if d == 6 { '6' } else if d == 7 { '7' } else if d == 8 { '8' } else {
        '9'
    }
}

/// The decimal digits of a number.
pub fn decimal_digits(n: u64) -> (r: Vec<char>)
    ensures
        r@ == decimal(n as nat),
    decreases n,
{
    if n < 10 {
        let mut r = Vec::new();
        r.push(digit(n));
        assert(r@ =~= seq![digit_char(n as int)]);
        r
    } else {
        let mut r = decimal_digits(n / 10);
        r.push(digit(n % 10));
        r
    }
}

/// The decimal digits of a number padded with zeros to `width`.
pub fn padded_decimal(n: u64, width: usize) -> (r: Vec<char>)
    ensures
        r@ == zero_pad(decimal(n as nat), width as int),
{
    let d = decimal_digits(n);
    if d.len() < width {
        let mut r: Vec<char> = Vec::new();
        let k = width - d.len();
        let mut i: usize = 0;
        while i < k
            invariant
                i <= k,
                r@ == Seq::new(i as nat, |j: int| '0'),
            decreases k - i,
        {
            r.push('0');
            assert(r@ =~= Seq::new((i + 1) as nat, |j: int| '0'));
            i += 1;
        }
        push_all(&mut r, &d);
        r
    } else {
        d
    }
}

/// Whether two byte strings are equal.
pub fn same_bytes(a: &[u8], b: &[u8]) -> (r: bool)
    ensures
        r == (a@ == b@),
{
    if a.len() != b.len() {
        return false;
    }
    let mut i: usize = 0;
    while i < a.len()
        invariant
            a@.len() == b@.len(),
            i <= a@.len(),
            forall|k: int| 0 <= k < i ==> a@[k] == b@[k],
        decreases a.len() - i,
    {
        if a[i] != b[i] {
            return false;
        }
        i += 1;
    }
    assert(a@ =~= b@);
    true
}

/// The number that decimal digit characters stand for.
pub open spec fn digits_of_chars(s: Seq<char>) -> int
    decreases s.len(),
{
    if s.len() == 0 {
        0
    } else {
        digits_of_chars(s.drop_last()) * 10 + (s.last() as int - 48)
    }
}

/// Whether a character is a decimal digit.
pub open spec fn is_digit_char(c: char) -> bool {
    '0' <= c && c <= '9'
}

proof fn lemma_digit_char(d: int)
    requires
        0 <= d < 10,
    ensures
        is_digit_char(digit_char(d)),
        digit_char(d) as int - 48 == d,
{
}

/// The decimal digits of a number are digits that stand for it; a number
/// below 100 has at most two, one below 10000 at most four.
pub proof fn lemma_decimal(n: nat)
    ensures
        decimal(n).len() >= 1,
        forall|k: int| 0 <= k < decimal(n).len() ==> is_digit_char(#[trigger] decimal(n)[k]),
        digits_of_chars(decimal(n)) == n,
        n < 10 ==> decimal(n).len() == 1,
        n < 100 ==> decimal(n).len() <= 2,
        n < 1000 ==> decimal(n).len() <= 3,
        n < 10000 ==> decimal(n).len() <= 4,
    decreases n,
{
    if n < 10 {
        lemma_digit_char(n as int);
        let d = seq![digit_char(n as int)];
        assert(d.drop_last() =~= Seq::<char>::empty());
        assert(d.last() == digit_char(n as int));
        assert(digits_of_chars(d) == digits_of_chars(d.drop_last()) * 10 + (d.last() as int - 48));
    } else {
        lemma_decimal(n / 10);
        lemma_digit_char((n % 10) as int);
        let d = decimal(n);
        assert(d.drop_last() =~= decimal(n / 10));
        assert(d.last() == digit_char((n % 10) as int));
        assert(digits_of_chars(d) == (n / 10) as int * 10 + (n % 10) as int);
        assert forall|k: int| 0 <= k < d.len() implies is_digit_char(#[trigger] d[k]) by {
            if k < d.len() - 1 {
                assert(d[k] == decimal(n / 10)[k]);
            }
        }
    }
}

proof fn lemma_leading_zero(s: Seq<char>)
    ensures
        digits_of_chars(seq!['0'] + s) == digits_of_chars(s),
    decreases s.len(),
{
    let z = seq!['0'] + s;
    if s.len() > 0 {
        lemma_leading_zero(s.drop_last());
        assert(z.drop_last() =~= seq!['0'] + s.drop_last());
        assert(z.last() == s.last());
        assert(digits_of_chars(z) == digits_of_chars(z.drop_last()) * 10 + (z.last() as int - 48));
        assert(digits_of_chars(s) == digits_of_chars(s.drop_last()) * 10 + (s.last() as int - 48));
    } else {
        assert(digits_of_chars(z) == digits_of_chars(z.drop_last()) * 10 + (z.last() as int - 48));
        assert(z.drop_last() =~= Seq::<char>::empty());
        assert(z.last() == '0');
        assert(('0' as int) == 48);
    }
}

/// Padding with zeros keeps the digits standing for the same number.
pub proof fn lemma_zero_pad(s: Seq<char>, width: int)
    requires
        forall|k: int| 0 <= k < s.len() ==> is_digit_char(#[trigger] s[k]),
    ensures
        digits_of_chars(zero_pad(s, width)) == digits_of_chars(s),
        forall|k: int| 0 <= k < zero_pad(s, width).len() ==> is_digit_char(#[trigger] zero_pad(s, width)[k]),
        s.len() <= width ==> zero_pad(s, width).len() == width,
    decreases width - s.len(),
{
    if s.len() < width {
        lemma_leading_zero(s);
        lemma_zero_pad(seq!['0'] + s, width);
        assert(zero_pad(seq!['0'] + s, width) =~= zero_pad(s, width));
    }
}

} // verus!
