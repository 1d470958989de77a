//! Clipboard writes through the terminal: the OSC 52 escape sequence with
//! its payload in base64 (RFC 4648, with padding).
use crate::text::{chars_of, encode_chars, push_all, string_of};
use vstd::prelude::*;

verus! {

/// The base64 alphabet: `A`–`Z`, `a`–`z`, `0`–`9`, `+`, `/`.
pub open spec fn alphabet(i: int) -> char {
    if i < 26 {
        (65 + i) as char
    } else if i < 52 {
        (97 + (i - 26)) as char
    } else if i < 62 {
        (48 + (i - 52)) as char
    } else if i == 62 {
        '+'
    } else {
        '/'
    }
}

/// The four characters that encode one group of one to three bytes; a short
/// group is padded with `=`.
pub open spec fn group(b0: int, b1: int, b2: int, n: int) -> Seq<char> {
    if n == 1 {
        seq![alphabet(b0 / 4), alphabet((b0 % 4) * 16), '=', '=']
    } else if n == 2 {
        seq![alphabet(b0 / 4), alphabet((b0 % 4) * 16 + b1 / 16), alphabet((b1 % 16) * 4), '=']
    } else {
        seq![
            alphabet(b0 / 4),
            alphabet((b0 % 4) * 16 + b1 / 16),
            alphabet((b1 % 16) * 4 + b2 / 64),
            alphabet(b2 % 64),
        ]
    }
}

/// The padded base64 encoding of some bytes, group by group.
pub open spec fn base64_of(b: Seq<u8>) -> Seq<char>
    decreases b.len(),
{
    if b.len() == 0 {
        Seq::empty()
    } else if b.len() == 1 {
        group(b[0] as int, 0, 0, 1)
    } else if b.len() == 2 {
        group(b[0] as int, b[1] as int, 0, 2)
    } else {
        group(b[0] as int, b[1] as int, b[2] as int, 3) + base64_of(b.skip(3))
    }
}

/// The characters that open an OSC 52 write to the clipboard selection.
pub open spec fn osc52_prefix() -> Seq<char> {
    seq!['\x1b', ']', '5', '2', ';', 'c', ';']
}

/// The OSC 52 sequence that puts `text` on the clipboard.
pub open spec fn osc52_of(text: Seq<char>) -> Seq<char> {
    osc52_prefix() + base64_of(vstd::utf8::encode_utf8(text)) + seq!['\x07']
}

fn alphabet_char(i: u32) -> (c: char)
    requires
        i < 64,
    ensures
        c == alphabet(i as int),
{
    if i < 26 {
        (65 + i) as u8 as char
    } else if i < 52 {
        (97 + (i - 26)) as u8 as char
    } else if i < 62 {
        (48 + (i - 52)) as u8 as char
    } else if i == 62 {
        '+'
    } else {
        '/'
    }
}

/// A base64 text is four characters for every three bytes begun.
pub proof fn lemma_base64_len(b: Seq<u8>)
    ensures
        base64_of(b).len() == 4 * ((b.len() + 2) / 3),
    decreases b.len(),
{
    if b.len() > 2 {
        lemma_base64_len(b.skip(3));
    }
}

/// Encodes bytes in base64 with padding (RFC 4648).
pub fn base64(bytes: &[u8]) -> (s: String)
    ensures
        s@ == base64_of(bytes@),
        s@.len() == 4 * ((bytes@.len() + 2) / 3),
{
    let mut out: Vec<char> = Vec::new();
    let mut i: usize = 0;
    let n = bytes.len();
    assert(bytes@.skip(0) =~= bytes@);
    assert(out@ + base64_of(bytes@) =~= base64_of(bytes@));
    while i < n
        invariant
            n == bytes@.len(),
            i <= n,
            base64_of(bytes@) == out@ + base64_of(bytes@.skip(i as int)),
        decreases n - i,
    {
        let rest = n - i;
        let b0 = bytes[i] as u32;
        let b1: u32 = if rest > 1 { bytes[i + 1] as u32 } else { 0 };
        let b2: u32 = if rest > 2 { bytes[i + 2] as u32 } else { 0 };
        let ghost tail = bytes@.skip(i as int);
        let ghost before = out@;
        out.push(alphabet_char(b0 / 4));
        if rest == 1 {
            out.push(alphabet_char((b0 % 4) * 16));
            out.push('=');
            out.push('=');
            proof {
                assert(out@ =~= before + group(b0 as int, 0, 0, 1));
                assert(base64_of(bytes@.skip(n as int)) =~= Seq::<char>::empty());
            }
            i = n;
        } else if rest == 2 {
            out.push(alphabet_char((b0 % 4) * 16 + b1 / 16));
            out.push(alphabet_char((b1 % 16) * 4));
            out.push('=');
            proof {
                assert(out@ =~= before + group(b0 as int, b1 as int, 0, 2));
                assert(base64_of(bytes@.skip(n as int)) =~= Seq::<char>::empty());
            }
            i = n;
        } else {
            out.push(alphabet_char((b0 % 4) * 16 + b1 / 16));
            out.push(alphabet_char((b1 % 16) * 4 + b2 / 64));
            out.push(alphabet_char(b2 % 64));
            proof {
                assert(tail.skip(3) =~= bytes@.skip(i + 3));
                assert(out@ =~= before + group(b0 as int, b1 as int, b2 as int, 3));
            }
            i = i + 3;
        }
    }
    proof {
        assert(out@ + base64_of(bytes@.skip(n as int)) =~= out@);
        lemma_base64_len(bytes@);
    }
    string_of(&out)
}

/// The OSC 52 escape sequence that asks the terminal to put `text` on the
/// clipboard: `ESC ] 52 ; c ;`, the base64 of the text's UTF-8 bytes, `BEL`.
pub fn sequence(text: &str) -> (s: String)
    ensures
        s@ == osc52_of(text@),
{
    let chars = chars_of(text);
    let bytes = encode_chars(&chars);
    let payload = base64(&bytes);
    let mut out: Vec<char> = Vec::new();
    out.push('\x1b');
    out.push(']');
    out.push('5');
    out.push('2');
    out.push(';');
    out.push('c');
    out.push(';');
    let p = chars_of(payload.as_str());
    push_all(&mut out, &p);
    out.push('\x07');
    assert(out@ =~= osc52_of(text@));
    string_of(&out)
}

} // verus!
