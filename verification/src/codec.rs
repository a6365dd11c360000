//! Payload framing: how the bytes of a key or a value travel inside a string.

use vstd::prelude::*;
use vstd::string::*;
use vstd::utf8::*;

use crate::error::{agrees, OpError};
use crate::number::{decimal, digit_char, digit_to_char, push_decimal};
use crate::text::{concat3, lemma_filter_keeps_all, str_eq};

verus! {

// ---- base64 ----

/// The character for six bits in the base64 alphabet.
pub open spec fn sextet_char(d: int) -> char {
    if d < 26 {
        (65 + d) as char
    } else if d < 52 {
        (71 + d) as char
    } else if d < 62 {
        (d - 4) as char
    } else if d == 62 {
        '+'
    } else {
        '/'
    }
}

/// The four characters for three bytes.
#[verifier::opaque]
pub open spec fn quad_text(b0: u8, b1: u8, b2: u8) -> Seq<char> {
    let n = b0 * 65536 + b1 * 256 + b2;
    seq![
        sextet_char(n / 262144),
        sextet_char(n / 4096 % 64),
        sextet_char(n / 64 % 64),
        sextet_char(n % 64),
    ]
}

/// Bytes in base64: every three of them four characters, the rest padded with
/// `=` to four.
pub open spec fn base64_text(bytes: Seq<u8>) -> Seq<char>
    decreases bytes.len(),
{
    if bytes.len() == 0 {
        Seq::empty()
    } else if bytes.len() == 1 {
        quad_text(bytes[0], 0, 0).take(2) + seq!['=', '=']
    } else if bytes.len() == 2 {
        quad_text(bytes[0], bytes[1], 0).take(3) + seq!['=']
    } else {
        quad_text(bytes[0], bytes[1], bytes[2]) + base64_text(bytes.skip(3))
    }
}

fn sextet_to_char(d: u32) -> (r: char)
    requires
        d < 64,
    ensures
        r == sextet_char(d as int),
{
    let d: u8 = d as u8;
    if d < 26 {
        (65 + d) as char
    } else if d < 52 {
        (71 + d) as char
    } else if d < 62 {
        (d - 4) as char
    } else if d == 62 {
        '+'
    } else {
        '/'
    }
}

/// Appends the characters for one to three bytes.
fn push_quad_text(out: &mut String, b0: u8, b1: Option<u8>, b2: Option<u8>)
    requires
        b2 is Some ==> b1 is Some,
    ensures
        final(out)@ == old(out)@ + match (b1, b2) {
            (None, _) => quad_text(b0, 0, 0).take(2) + seq!['=', '='],
            (Some(b1), None) => quad_text(b0, b1, 0).take(3) + seq!['='],
            (Some(b1), Some(b2)) => quad_text(b0, b1, b2),
        },
{
    let v1: u8 = match b1 {
        Some(b) => b,
        None => 0,
    };
    let v2: u8 = match b2 {
        Some(b) => b,
        None => 0,
    };
    let n: u32 = b0 as u32 * 65536 + v1 as u32 * 256 + v2 as u32;
    proof {
        reveal(quad_text);
    }
    out.push(sextet_to_char(n / 262144));
    out.push(sextet_to_char(n / 4096 % 64));
    out.push(
        if b1.is_some() {
            sextet_to_char(n / 64 % 64)
        } else {
            '='
        },
    );
    out.push(
        if b2.is_some() {
            sextet_to_char(n % 64)
        } else {
            '='
        },
    );
    proof {
        let quad = quad_text(b0, v1, v2);
        if b1 is None {
            assert(out@ =~= old(out)@ + (quad.take(2) + seq!['=', '=']));
        } else if b2 is None {
            assert(out@ =~= old(out)@ + (quad.take(3) + seq!['=']));
        } else {
            assert(out@ =~= old(out)@ + quad);
        }
    }
}

/// Encodes bytes in base64.
pub fn base64_encode(bytes: &[u8]) -> (r: String)
    ensures
        r@ == base64_text(bytes@),
{
    let mut out = String::new();
    let mut i: usize = 0;
    assert(bytes@.skip(0) =~= bytes@);
    assert(out@ + base64_text(bytes@) =~= base64_text(bytes@));
    while i < bytes.len()
        invariant
            i <= bytes@.len(),
            out@ + base64_text(bytes@.skip(i as int)) == base64_text(bytes@),
        decreases bytes@.len() - i,
    {
        let ghost rest = bytes@.skip(i as int);
        let ghost before = out@;
        let left: usize = bytes.len() - i;
        let b1: Option<u8> = if left > 1 {
            Some(bytes[i + 1])
        } else {
            None
        };
        let b2: Option<u8> = if left > 2 {
            Some(bytes[i + 2])
        } else {
            None
        };
        push_quad_text(&mut out, bytes[i], b1, b2);
        let step: usize = if left > 2 {
            3
        } else {
            left
        };
        proof {
            assert(rest[0] == bytes@[i as int]);
            let next = bytes@.skip(i + step);
            if left > 2 {
                assert(rest.skip(3) =~= next);
                let quad = quad_text(rest[0], rest[1], rest[2]);
                assert(before + quad + base64_text(next) =~= before + (quad + base64_text(next)));
            } else {
                assert(base64_text(next) =~= Seq::<char>::empty());
                assert(out@ + base64_text(next) =~= out@);
            }
        }
        i = i + step;
    }
    assert(base64_text(bytes@.skip(i as int)) =~= Seq::<char>::empty());
    assert(out@ + Seq::<char>::empty() =~= out@);
    out
}

/// The white space of ASCII.
pub open spec fn ascii_space(b: u8) -> bool {
    b == 0x20 || b == 0x09 || b == 0x0a || b == 0x0c || b == 0x0d
}

/// The bytes that are not white space.
pub open spec fn without_spaces(s: Seq<u8>) -> Seq<u8> {
    s.filter(|b: u8| !ascii_space(b))
}

/// The six bits that a character of the base64 alphabet stands for.
pub open spec fn sextet(b: u8) -> Option<int> {
    if 65 <= b <= 90 {
        Some(b - 65)
    } else if 97 <= b <= 122 {
        Some(b - 71)
    } else if 48 <= b <= 57 {
        Some(b + 4)
    } else if b == 43 {
        Some(62)
    } else if b == 47 {
        Some(63)
    } else {
        None
    }
}

/// The six bits of a place that may hold padding, which counts as zero.
pub open spec fn padded_sextet(b: u8) -> Option<int> {
    if b == 61 {
        Some(0)
    } else {
        sextet(b)
    }
}

/// The bytes of four characters: three, less one for each of the last two that
/// is padding.
pub open spec fn quad_bytes(a: u8, b: u8, c: u8, d: u8) -> Option<Seq<u8>> {
    match (sextet(a), sextet(b), padded_sextet(c), padded_sextet(d)) {
        (Some(v0), Some(v1), Some(v2), Some(v3)) => {
            let n = v0 * 262144 + v1 * 4096 + v2 * 64 + v3;
            let first = (n / 65536) as u8;
            let second = (n / 256 % 256) as u8;
            let third = (n % 256) as u8;
            if c == 61 && d == 61 {
                Some(seq![first])
            } else if c == 61 || d == 61 {
                Some(seq![first, second])
            } else {
                Some(seq![first, second, third])
            }
        },
        _ => None,
    }
}

/// The bytes of a row of groups of four characters.
pub open spec fn quads_bytes(s: Seq<u8>) -> Option<Seq<u8>>
    decreases s.len(),
{
    if s.len() < 4 {
        Some(Seq::empty())
    } else {
        match (quad_bytes(s[0], s[1], s[2], s[3]), quads_bytes(s.skip(4))) {
            (Some(head), Some(tail)) => Some(head + tail),
            _ => None,
        }
    }
}

/// What a base64 text stands for: white space is skipped, what is left is a
/// whole number of groups of four, padding may close any group.
pub open spec fn base64_bytes(s: Seq<u8>) -> Result<Seq<u8>, Seq<char>> {
    let kept = without_spaces(s);
    if kept.len() % 4 != 0 {
        Err("base64 length must be a multiple of 4"@)
    } else {
        match quads_bytes(kept) {
            Some(bytes) => Ok(bytes),
            None => Err("invalid base64 character"@),
        }
    }
}

fn sextet_of(b: u8) -> (r: Option<u32>)
    ensures
        match r {
            Some(v) => sextet(b) == Some(v as int) && v < 64,
            None => sextet(b) is None,
        },
{
    if 65 <= b && b <= 90 {
        Some((b - 65) as u32)
    } else if 97 <= b && b <= 122 {
        Some((b - 71) as u32)
    } else if 48 <= b && b <= 57 {
        Some((b + 4) as u32)
    } else if b == 43 {
        Some(62)
    } else if b == 47 {
        Some(63)
    } else {
        None
    }
}

fn padded_sextet_of(b: u8) -> (r: Option<u32>)
    ensures
        match r {
            Some(v) => padded_sextet(b) == Some(v as int) && v < 64,
            None => padded_sextet(b) is None,
        },
{
    if b == 61 {
        Some(0)
    } else {
        sextet_of(b)
    }
}

fn strip_spaces(s: &[u8]) -> (r: Vec<u8>)
    ensures
        r@ == without_spaces(s@),
{
    let mut kept: Vec<u8> = Vec::new();
    let mut i: usize = 0;
    proof {
        reveal(Seq::filter);
        assert(without_spaces(s@.take(0)) =~= Seq::<u8>::empty());
    }
    while i < s.len()
        invariant
            i <= s@.len(),
            kept@ == without_spaces(s@.take(i as int)),
        decreases s@.len() - i,
    {
        let b: u8 = s[i];
        proof {
            reveal(Seq::filter);
            assert(s@.take(i + 1).drop_last() =~= s@.take(i as int));
        }
        if !(b == 0x20 || b == 0x09 || b == 0x0a || b == 0x0c || b == 0x0d) {
            kept.push(b);
        }
        i = i + 1;
    }
    assert(s@.take(i as int) =~= s@);
    kept
}

/// Appends the bytes of four characters, or reports that one is none of the
/// alphabet.
fn push_quad(out: &mut Vec<u8>, a: u8, b: u8, c: u8, d: u8) -> (r: bool)
    ensures
        r == (quad_bytes(a, b, c, d) is Some),
        r ==> final(out)@ == old(out)@ + quad_bytes(a, b, c, d).unwrap(),
{
    match (sextet_of(a), sextet_of(b), padded_sextet_of(c), padded_sextet_of(d)) {
        (Some(v0), Some(v1), Some(v2), Some(v3)) => {
            let n: u32 = v0 * 262144 + v1 * 4096 + v2 * 64 + v3;
            out.push((n / 65536) as u8);
            if !(c == 61 && d == 61) {
                out.push((n / 256 % 256) as u8);
            }
            if !(c == 61 || d == 61) {
                out.push((n % 256) as u8);
            }
            assert(out@ =~= old(out)@ + quad_bytes(a, b, c, d).unwrap());
            true
        },
        _ => false,
    }
}

/// Decodes base64.
pub fn base64_decode(s: &str) -> (r: Result<Vec<u8>, OpError>)
    ensures
        agrees(r, base64_bytes(s.spec_bytes())),
{
    let kept = strip_spaces(s.as_bytes());
    if kept.len() % 4 != 0 {
        return Err(OpError::new("base64 length must be a multiple of 4"));
    }
    let mut out: Vec<u8> = Vec::new();
    let mut i: usize = 0;
    assert(kept@.skip(0) =~= kept@);
    proof {
        if let Some(all) = quads_bytes(kept@) {
            assert(out@ + all =~= all);
        }
    }
    while kept.len() - i >= 4
        invariant
            i <= kept@.len(),
            kept@ == without_spaces(s.spec_bytes()),
            kept@.len() % 4 == 0,
            match quads_bytes(kept@.skip(i as int)) {
                Some(rest) => quads_bytes(kept@) == Some(out@ + rest),
                None => quads_bytes(kept@) is None,
            },
        decreases kept@.len() - i,
    {
        let ghost rest = kept@.skip(i as int);
        let ghost before = out@;
        proof {
            assert(rest.skip(4) =~= kept@.skip(i + 4));
            assert(rest[0] == kept@[i as int] && rest[1] == kept@[i + 1]);
            assert(rest[2] == kept@[i + 2] && rest[3] == kept@[i + 3]);
        }
        if !push_quad(&mut out, kept[i], kept[i + 1], kept[i + 2], kept[i + 3]) {
            return Err(OpError::new("invalid base64 character"));
        }
        proof {
            let head = quad_bytes(rest[0], rest[1], rest[2], rest[3]).unwrap();
            if let Some(tail) = quads_bytes(kept@.skip(i + 4)) {
                assert(before + (head + tail) =~= out@ + tail);
            }
        }
        i = i + 4;
    }
    assert(out@ + Seq::<u8>::empty() =~= out@);
    Ok(out)
}

/// The standard engine of the `base64` crate, `Engine::encode` on
/// `general_purpose::STANDARD`: the standard alphabet, with padding. It fails
/// where the encoded text would not fit in memory.
#[verifier::external_body]
pub(crate) fn standard_base64(bytes: &[u8]) -> (r: String)
    requires
        (bytes@.len() + 2) / 3 * 4 <= isize::MAX,
    ensures
        r@ == base64_text(bytes@),
{
    base64::Engine::encode(&base64::engine::general_purpose::STANDARD, bytes)
}

// ---- hexadecimal ----

/// Bytes in base sixteen, two lower-case digits each.
pub open spec fn hex_text(bytes: Seq<u8>) -> Seq<char> {
    Seq::new(
        2 * bytes.len(),
        |i: int|
            if i % 2 == 0 {
                digit_char(bytes[i / 2] as int / 16)
            } else {
                digit_char(bytes[i / 2] as int % 16)
            },
    )
}

/// The value of a digit in base sixteen, of either case.
pub open spec fn hex_digit(b: u8) -> Option<int> {
    if 48 <= b <= 57 {
        Some(b - 48)
    } else if 97 <= b <= 102 {
        Some(b - 87)
    } else if 65 <= b <= 70 {
        Some(b - 55)
    } else {
        None
    }
}

/// The byte that two characters stand for: two digits, or a plus sign and one.
pub open spec fn hex_pair(a: u8, b: u8) -> Option<u8> {
    if a == 43 {
        match hex_digit(b) {
            Some(v) => Some(v as u8),
            None => None,
        }
    } else {
        match (hex_digit(a), hex_digit(b)) {
            (Some(high), Some(low)) => Some((high * 16 + low) as u8),
            _ => None,
        }
    }
}

/// The offset of the first pair, from the even offset `from` on, that is no
/// byte; the length if all are.
pub open spec fn first_bad_pair(s: Seq<u8>, from: int) -> int
    decreases s.len() - from,
{
    if from + 2 > s.len() || from < 0 {
        s.len() as int
    } else if hex_pair(s[from], s[from + 1]) is None {
        from
    } else {
        first_bad_pair(s, from + 2)
    }
}

/// The message for a pair that is no byte.
pub open spec fn bad_pair_message(offset: int) -> Seq<char> {
    "invalid hex byte at offset "@ + decimal(offset as nat)
}

/// What a text in base sixteen stands for.
pub open spec fn hex_bytes(s: Seq<u8>) -> Result<Seq<u8>, Seq<char>> {
    if s.len() % 2 != 0 {
        Err("hex payload must have an even length"@)
    } else if first_bad_pair(s, 0) < s.len() {
        Err(bad_pair_message(first_bad_pair(s, 0)))
    } else {
        Ok(Seq::new(s.len() / 2, |i: int| hex_pair(s[2 * i], s[2 * i + 1]).unwrap()))
    }
}

/// The first pair that is no byte ends in the middle of a character, where the
/// text cannot be cut.
pub open spec fn hex_splits_char(s: Seq<u8>) -> bool {
    let bad = first_bad_pair(s, 0);
    s.len() % 2 == 0 && bad + 2 < s.len() && is_continuation_byte(s[bad + 2])
}

fn hex_digit_of(b: u8) -> (r: Option<u8>)
    ensures
        match r {
            Some(v) => hex_digit(b) == Some(v as int) && v < 16,
            None => hex_digit(b) is None,
        },
{
    if 48 <= b && b <= 57 {
        Some((b - 48) as u8)
    } else if 97 <= b && b <= 102 {
        Some((b - 87) as u8)
    } else if 65 <= b && b <= 70 {
        Some((b - 55) as u8)
    } else {
        None
    }
}

fn hex_pair_of(a: u8, b: u8) -> (r: Option<u8>)
    ensures
        r == hex_pair(a, b),
{
    if a == 43 {
        hex_digit_of(b)
    } else {
        match (hex_digit_of(a), hex_digit_of(b)) {
            (Some(high), Some(low)) => Some((high * 16 + low) as u8),
            _ => None,
        }
    }
}

/// The first bad pair is where its definition looks for it.
proof fn lemma_first_bad_pair(s: Seq<u8>, from: int)
    requires
        0 <= from,
    ensures
        first_bad_pair(s, from) < s.len() ==> from <= first_bad_pair(s, from) && first_bad_pair(
            s,
            from,
        ) + 2 <= s.len(),
        first_bad_pair(s, from) <= s.len(),
    decreases s.len() - from,
{
    if from + 2 <= s.len() && hex_pair(s[from], s[from + 1]) is Some {
        lemma_first_bad_pair(s, from + 2);
    }
}

/// Whether the first pair of `s` that is no byte ends in the middle of a
/// character.
pub fn hex_splits_a_char(s: &str) -> (r: bool)
    ensures
        r == hex_splits_char(s.spec_bytes()),
{
    let bytes: &[u8] = s.as_bytes();
    if bytes.len() % 2 != 0 {
        return false;
    }
    let mut i: usize = 0;
    while bytes.len() - i >= 2
        invariant
            i <= bytes@.len(),
            bytes@ == s.spec_bytes(),
            bytes@.len() % 2 == 0,
            first_bad_pair(bytes@, i as int) == first_bad_pair(bytes@, 0),
        decreases bytes@.len() - i,
    {
        if hex_pair_of(bytes[i], bytes[i + 1]).is_none() {
            return bytes.len() - i > 2 && 0x80 <= bytes[i + 2] && bytes[i + 2] <= 0xbf;
        }
        i = i + 2;
    }
    false
}

fn hex_decode(s: &str) -> (r: Result<Vec<u8>, OpError>)
    ensures
        agrees(r, hex_bytes(s.spec_bytes())),
{
    let bytes: &[u8] = s.as_bytes();
    if bytes.len() % 2 != 0 {
        return Err(OpError::new("hex payload must have an even length"));
    }
    let mut out: Vec<u8> = Vec::new();
    let mut i: usize = 0;
    while bytes.len() - i >= 2
        invariant
            i <= bytes@.len(),
            i == 2 * out@.len(),
            bytes@ == s.spec_bytes(),
            bytes@.len() % 2 == 0,
            first_bad_pair(bytes@, i as int) == first_bad_pair(bytes@, 0),
            forall|j: int|
                0 <= j < out@.len() ==> hex_pair(bytes@[2 * j], bytes@[2 * j + 1]) == Some(
                    #[trigger] out@[j],
                ),
        decreases bytes@.len() - i,
    {
        match hex_pair_of(bytes[i], bytes[i + 1]) {
            Some(b) => {
                out.push(b);
            },
            None => {
                let mut message = "invalid hex byte at offset ".to_owned();
                push_decimal(&mut message, i as u64);
                return Err(OpError { message });
            },
        }
        i = i + 2;
    }
    assert(out@ =~= hex_bytes(bytes@)->Ok_0);
    Ok(out)
}

fn hex_encode(bytes: &[u8]) -> (r: String)
    ensures
        r@ == hex_text(bytes@),
{
    let mut out = String::new();
    let mut i: usize = 0;
    while i < bytes.len()
        invariant
            i <= bytes@.len(),
            out@ == hex_text(bytes@).take(2 * i),
        decreases bytes@.len() - i,
    {
        let b: u8 = bytes[i];
        out.push(digit_to_char(b / 16));
        out.push(digit_to_char(b % 16));
        assert(out@ =~= hex_text(bytes@).take(2 * (i + 1)));
        i = i + 1;
    }
    assert(hex_text(bytes@).take(2 * i) =~= hex_text(bytes@));
    out
}

// ---- fields ----

/// What `String::from_utf8_lossy` makes of bytes.
pub uninterp spec fn utf8_lossy(bytes: Seq<u8>) -> Seq<char>;

/// `String::from_utf8_lossy` as an owned string: a function of the bytes alone,
/// which on valid UTF-8 gives the characters that the bytes encode. What stands
/// in the place of invalid bytes is left to the name.
#[verifier::external_body]
pub(crate) fn decode_lossy(bytes: &[u8]) -> (r: String)
    ensures
        r@ == utf8_lossy(bytes@),
        valid_utf8(bytes@) ==> r@ == decode_utf8(bytes@),
{
    String::from_utf8_lossy(bytes).into_owned()
}

/// Bytes as text: the characters that they encode; of bytes that encode none, what
/// `String::from_utf8_lossy` makes of them.
pub open spec fn lossy_text(bytes: Seq<u8>) -> Seq<char> {
    if valid_utf8(bytes) {
        decode_utf8(bytes)
    } else {
        utf8_lossy(bytes)
    }
}

/// The bytes that `value` carries under `encoding`.
pub open spec fn field_bytes(value: Seq<char>, encoding: Seq<char>) -> Result<
    Seq<u8>,
    Seq<char>,
> {
    if encoding == "utf8"@ || encoding == "text"@ {
        Ok(encode_utf8(value))
    } else if encoding == "base64"@ || encoding == "b64"@ {
        base64_bytes(encode_utf8(value))
    } else if encoding == "hex"@ {
        hex_bytes(encode_utf8(value))
    } else {
        Err("unknown encoding: "@ + encoding + " (want utf8|base64|hex)"@)
    }
}

/// The text that carries `bytes` under `encoding`.
pub open spec fn field_text(bytes: Seq<u8>, encoding: Seq<char>) -> Seq<char> {
    if encoding == "base64"@ || encoding == "b64"@ {
        base64_text(bytes)
    } else if encoding == "hex"@ {
        hex_text(bytes)
    } else {
        lossy_text(bytes)
    }
}

/// The encodings that carry any bytes.
pub open spec fn binary_encoding(encoding: Seq<char>) -> bool {
    encoding == "base64"@ || encoding == "b64"@ || encoding == "hex"@
}

/// The encodings under which bytes are the text itself.
pub open spec fn text_encoding(encoding: Seq<char>) -> bool {
    encoding == "utf8"@ || encoding == "text"@
}

/// Decoding does not cut a character in two.
pub open spec fn field_cuts_cleanly(value: Seq<char>, encoding: Seq<char>) -> bool {
    encoding == "hex"@ ==> !hex_splits_char(encode_utf8(value))
}

/// Whether decoding `value` under `encoding` cuts no character in two.
pub fn field_is_clean(value: &str, encoding: &str) -> (r: bool)
    ensures
        r == field_cuts_cleanly(value@, encoding@),
{
    !str_eq(encoding, "hex") || !hex_splits_a_char(value)
}

/// Decodes a payload or key into bytes.
pub fn decode_field(value: &str, encoding: &str) -> (r: Result<Vec<u8>, OpError>)
    requires
        field_cuts_cleanly(value@, encoding@),
    ensures
        agrees(r, field_bytes(value@, encoding@)),
{
    if str_eq(encoding, "utf8") || str_eq(encoding, "text") {
        Ok(value.as_bytes_vec())
    } else if str_eq(encoding, "base64") || str_eq(encoding, "b64") {
        base64_decode(value)
    } else if str_eq(encoding, "hex") {
        hex_decode(value)
    } else {
        Err(
            OpError {
                message: concat3("unknown encoding: ", encoding, " (want utf8|base64|hex)"),
            },
        )
    }
}

/// Encodes received bytes into a string.
pub fn encode_field(bytes: &[u8], encoding: &str) -> (r: String)
    ensures
        r@ == field_text(bytes@, encoding@),
{
    if str_eq(encoding, "base64") || str_eq(encoding, "b64") {
        base64_encode(bytes)
    } else if str_eq(encoding, "hex") {
        hex_encode(bytes)
    } else {
        decode_lossy(bytes)
    }
}

// ---- laws ----

/// No name of an encoding is another's.
proof fn lemma_encodings_differ()
    ensures
        forall|e: Seq<char>| #[trigger] binary_encoding(e) ==> !text_encoding(e),
        "hex"@ != "base64"@,
        "hex"@ != "b64"@,
{
    reveal_strlit("utf8");
    reveal_strlit("text");
    reveal_strlit("base64");
    reveal_strlit("b64");
    reveal_strlit("hex");
    assert("utf8"@[0] == 'u');
    assert("text"@[0] == 't');
    assert("base64"@[0] == 'b');
    assert("b64"@[0] == 'b');
    assert("hex"@[0] == 'h');
}

/// Characters below 128 as bytes.
spec fn ascii_bytes(s: Seq<char>) -> Seq<u8> {
    s.map_values(|c: char| c as u8)
}

/// A text of characters below 128 is encoded by those bytes.
proof fn lemma_ascii_encoding(s: Seq<char>)
    requires
        forall|i: int| 0 <= i < s.len() ==> '\0' <= #[trigger] s[i] <= '\u{7f}',
    ensures
        encode_utf8(s) == ascii_bytes(s),
{
    assert(is_ascii_chars(s));
    is_ascii_chars_encode_utf8(s);
    assert(encode_utf8(s) =~= ascii_bytes(s));
}

/// The alphabet's characters stand for the six bits that they were chosen for.
proof fn lemma_sextet(d: int)
    requires
        0 <= d < 64,
    ensures
        '\0' <= sextet_char(d) <= '\u{7f}',
        sextet(sextet_char(d) as u8) == Some(d),
        sextet_char(d) != '=',
        !ascii_space(sextet_char(d) as u8),
        sextet_char(d) as u8 != 61,
{
}

/// Three bytes survive the way through four characters.
proof fn lemma_quad(b0: u8, b1: u8, b2: u8)
    ensures
        ({
            let n = b0 * 65536 + b1 * 256 + b2;
            let d0 = n / 262144;
            let d1 = n / 4096 % 64;
            let d2 = n / 64 % 64;
            let d3 = n % 64;
            &&& 0 <= d0 < 64 && 0 <= d1 < 64 && 0 <= d2 < 64 && 0 <= d3 < 64
            &&& d0 * 262144 + d1 * 4096 + d2 * 64 + d3 == n
            &&& n / 65536 == b0
            &&& n / 256 % 256 == b1
            &&& n % 256 == b2
        }),
{
    let n = b0 * 65536 + b1 * 256 + b2;
    assert(n / 65536 == b0);
    assert(n / 256 == b0 * 256 + b1);
    assert(n / 262144 == n / 4096 / 64);
    assert(n / 4096 == n / 64 / 64);
}

/// A character of a base64 text: in the range of ASCII and no white space.
spec fn plain_char(c: char) -> bool {
    '\0' <= c <= '\u{7f}' && !ascii_space(c as u8)
}

/// Four characters stand for the number that their bits make up.
proof fn lemma_quad_bytes(v0: int, v1: int, c: u8, v2: int, d: u8, v3: int)
    requires
        0 <= v0 < 64,
        0 <= v1 < 64,
        padded_sextet(c) == Some(v2),
        padded_sextet(d) == Some(v3),
    ensures
        ({
            let n = v0 * 262144 + v1 * 4096 + v2 * 64 + v3;
            let first = (n / 65536) as u8;
            let second = (n / 256 % 256) as u8;
            let third = (n % 256) as u8;
            quad_bytes(sextet_char(v0) as u8, sextet_char(v1) as u8, c, d) == if c == 61 && d
                == 61 {
                Some(seq![first])
            } else if c == 61 || d == 61 {
                Some(seq![first, second])
            } else {
                Some(seq![first, second, third])
            }
        }),
{
    lemma_sextet(v0);
    lemma_sextet(v1);
}

/// The four characters for three bytes are plain, and stand for those bytes; so
/// do the first two or three of them with padding, where the bytes left out are
/// zero.
proof fn lemma_quad_text(b0: u8, b1: u8, b2: u8)
    ensures
        ({
            let t = quad_text(b0, b1, b2);
            &&& t.len() == 4
            &&& plain_char(t[0]) && plain_char(t[1]) && plain_char(t[2]) && plain_char(t[3])
            &&& quad_bytes(t[0] as u8, t[1] as u8, t[2] as u8, t[3] as u8) == Some(
                seq![b0, b1, b2],
            )
            &&& b2 == 0 ==> quad_bytes(t[0] as u8, t[1] as u8, t[2] as u8, 61) == Some(
                seq![b0, b1],
            )
            &&& b1 == 0 && b2 == 0 ==> quad_bytes(t[0] as u8, t[1] as u8, 61, 61) == Some(seq![b0])
        }),
{
    reveal(quad_text);
    let n = b0 * 65536 + b1 * 256 + b2;
    let (v0, v1, v2, v3) = (n / 262144, n / 4096 % 64, n / 64 % 64, n % 64);
    lemma_quad(b0, b1, b2);
    assert(quad_text(b0, b1, b2) == seq![
        sextet_char(v0),
        sextet_char(v1),
        sextet_char(v2),
        sextet_char(v3),
    ]);
    assert forall|v: int| 0 <= v < 64 implies plain_char(#[trigger] sextet_char(v)) && sextet_char(
        v,
    ) as u8 != 61 && padded_sextet(sextet_char(v) as u8) == Some(v) by {
        lemma_sextet(v);
    }
    let (c, d) = (sextet_char(v2) as u8, sextet_char(v3) as u8);
    lemma_quad_bytes(v0, v1, c, v2, d, v3);
    if b2 == 0 {
        assert(v3 == 0);
        lemma_quad_bytes(v0, v1, c, v2, 61, 0);
        if b1 == 0 {
            assert(v2 == 0);
            lemma_quad_bytes(v0, v1, 61, 0, 61, 0);
        }
    }
}

/// How many bytes the first group of a base64 text stands for.
spec fn group_len(bytes: Seq<u8>) -> int {
    if bytes.len() < 3 {
        bytes.len() as int
    } else {
        3
    }
}

/// A base64 text begins with four plain characters, which stand for the first
/// group, and goes on with the text of the bytes behind it.
#[verifier::spinoff_prover]
proof fn lemma_base64_group(bytes: Seq<u8>)
    requires
        bytes.len() > 0,
    ensures
        ({
            let t = base64_text(bytes);
            &&& t.len() >= 4
            &&& plain_char(t[0]) && plain_char(t[1]) && plain_char(t[2]) && plain_char(t[3])
            &&& quad_bytes(t[0] as u8, t[1] as u8, t[2] as u8, t[3] as u8) == Some(
                bytes.take(group_len(bytes)),
            )
            &&& t.skip(4) == base64_text(bytes.skip(group_len(bytes)))
        }),
{
    let text = base64_text(bytes);
    if bytes.len() == 1 {
        lemma_quad_text(bytes[0], 0, 0);
        assert(bytes.take(1) =~= seq![bytes[0]]);
    } else if bytes.len() == 2 {
        lemma_quad_text(bytes[0], bytes[1], 0);
        assert(bytes.take(2) =~= seq![bytes[0], bytes[1]]);
    } else {
        lemma_quad_text(bytes[0], bytes[1], bytes[2]);
        assert(bytes.take(3) =~= seq![bytes[0], bytes[1], bytes[2]]);
    }
    assert(text.skip(4) =~= base64_text(bytes.skip(group_len(bytes))));
}

/// Groups of four decode one after the other.
proof fn lemma_quads_step(s: Seq<u8>, head: Seq<u8>, tail: Seq<u8>)
    requires
        s.len() >= 4,
        quad_bytes(s[0], s[1], s[2], s[3]) == Some(head),
        quads_bytes(s.skip(4)) == Some(tail),
    ensures
        quads_bytes(s) == Some(head + tail),
{
}

/// A base64 text has a whole number of groups.
#[verifier::spinoff_prover]
proof fn lemma_base64_len(bytes: Seq<u8>)
    ensures
        base64_text(bytes).len() % 4 == 0,
    decreases bytes.len(),
{
    if bytes.len() > 0 {
        lemma_base64_group(bytes);
        lemma_base64_len(bytes.skip(group_len(bytes)));
    }
}

/// A base64 text is made of plain characters.
proof fn lemma_base64_plain(bytes: Seq<u8>, i: int)
    requires
        0 <= i < base64_text(bytes).len(),
    ensures
        plain_char(base64_text(bytes)[i]),
    decreases bytes.len(),
{
    if bytes.len() > 0 {
        lemma_base64_group(bytes);
        if i >= 4 {
            let text = base64_text(bytes);
            assert(text[i] == text.skip(4)[i - 4]);
            lemma_base64_plain(bytes.skip(group_len(bytes)), i - 4);
        }
    }
}

/// The groups of a base64 text decode to the bytes.
#[verifier::spinoff_prover]
proof fn lemma_base64_decodes(bytes: Seq<u8>)
    ensures
        quads_bytes(ascii_bytes(base64_text(bytes))) == Some(bytes),
    decreases bytes.len(),
{
    let text = base64_text(bytes);
    let codes = ascii_bytes(text);
    if bytes.len() == 0 {
        assert(bytes =~= Seq::<u8>::empty());
    } else {
        let k = group_len(bytes);
        lemma_base64_group(bytes);
        lemma_base64_decodes(bytes.skip(k));
        assert(codes.skip(4) =~= ascii_bytes(text.skip(4)));
        lemma_quads_step(codes, bytes.take(k), bytes.skip(k));
        assert(bytes.take(k) + bytes.skip(k) =~= bytes);
    }
}

/// Decoding a base64 text gives back the bytes that it was made from.
pub proof fn law_base64_round_trip(bytes: Seq<u8>)
    ensures
        base64_bytes(encode_utf8(base64_text(bytes))) == Ok::<Seq<u8>, Seq<char>>(bytes),
{
    let text = base64_text(bytes);
    lemma_base64_len(bytes);
    lemma_base64_decodes(bytes);
    assert forall|i: int| 0 <= i < text.len() implies plain_char(#[trigger] text[i]) by {
        lemma_base64_plain(bytes, i);
    }
    lemma_ascii_encoding(text);
    let codes = ascii_bytes(text);
    assert forall|i: int| 0 <= i < codes.len() implies !ascii_space(#[trigger] codes[i]) by {
        assert(codes[i] == text[i] as u8);
        assert(plain_char(text[i]));
    }
    lemma_filter_keeps_all(codes, |b: u8| !ascii_space(b));
}

/// Every pair of a hexadecimal text is a byte.
proof fn lemma_hex_pairs(bytes: Seq<u8>, from: int)
    requires
        0 <= from <= 2 * bytes.len(),
        from % 2 == 0,
    ensures
        first_bad_pair(ascii_bytes(hex_text(bytes)), from) == 2 * bytes.len(),
    decreases 2 * bytes.len() - from,
{
    let codes = ascii_bytes(hex_text(bytes));
    if from < 2 * bytes.len() {
        lemma_hex_byte(bytes[from / 2]);
        assert((from + 1) / 2 == from / 2);
        lemma_hex_pairs(bytes, from + 2);
    }
}

/// A byte survives the way through two digits.
proof fn lemma_hex_byte(b: u8)
    ensures
        hex_pair(digit_char(b as int / 16) as u8, digit_char(b as int % 16) as u8) == Some(b),
        '\0' <= digit_char(b as int / 16) <= '\u{7f}',
        '\0' <= digit_char(b as int % 16) <= '\u{7f}',
{
}

/// Decoding a hexadecimal text gives back the bytes that it was made from.
pub proof fn law_hex_round_trip(bytes: Seq<u8>)
    ensures
        hex_bytes(encode_utf8(hex_text(bytes))) == Ok::<Seq<u8>, Seq<char>>(bytes),
        !hex_splits_char(encode_utf8(hex_text(bytes))),
{
    let text = hex_text(bytes);
    assert forall|i: int| 0 <= i < text.len() implies '\0' <= #[trigger] text[i]
        <= '\u{7f}' by {
        lemma_hex_byte(bytes[i / 2]);
    }
    lemma_ascii_encoding(text);
    lemma_hex_pairs(bytes, 0);
    let codes = ascii_bytes(text);
    assert forall|i: int| 0 <= i < bytes.len() implies hex_pair(
        codes[2 * i],
        codes[2 * i + 1],
    ) == Some(#[trigger] bytes[i]) by {
        lemma_hex_byte(bytes[i]);
        assert((2 * i) / 2 == i && (2 * i + 1) / 2 == i);
    }
    assert(hex_bytes(codes)->Ok_0 =~= bytes);
}

/// What a text is decoded to does not depend on the white space in it.
pub proof fn law_base64_ignores_space(a: Seq<u8>, b: Seq<u8>)
    requires
        without_spaces(a) == without_spaces(b),
    ensures
        base64_bytes(a) == base64_bytes(b),
{
}

/// What bytes are shown as stands for those bytes: for any bytes under an encoding
/// that carries any, and for text under one that carries text.
pub proof fn law_field_round_trip(bytes: Seq<u8>, encoding: Seq<char>)
    requires
        binary_encoding(encoding) || text_encoding(encoding) && valid_utf8(bytes),
    ensures
        field_bytes(field_text(bytes, encoding), encoding) == Ok::<Seq<u8>, Seq<char>>(bytes),
        field_cuts_cleanly(field_text(bytes, encoding), encoding),
{
    lemma_encodings_differ();
    law_base64_round_trip(bytes);
    law_hex_round_trip(bytes);
    if valid_utf8(bytes) {
        decode_utf8_encode_utf8(bytes);
    }
}

/// Text is shown as it was given, under an encoding that carries text.
pub proof fn law_text_round_trip(value: Seq<char>, encoding: Seq<char>)
    requires
        text_encoding(encoding),
    ensures
        field_bytes(value, encoding) matches Ok(bytes) && field_text(bytes, encoding) == value,
{
    lemma_encodings_differ();
    assert(!binary_encoding(encoding));
    encode_utf8_valid_utf8(value);
    encode_utf8_decode_utf8(value);
}

/// The base64 alphabet is the capital letters, the small ones, the digits, `+` and `/`, in
/// that order; what it reads is what it writes, and nothing else is read.
pub proof fn law_base64_alphabet(d: int, b: u8)
    ensures
        0 <= d < 26 ==> sextet_char(d) as int == 'A' as int + d,
        26 <= d < 52 ==> sextet_char(d) as int == 'a' as int + d - 26,
        52 <= d < 62 ==> sextet_char(d) as int == '0' as int + d - 52,
        d == 62 ==> sextet_char(d) == '+',
        d == 63 ==> sextet_char(d) == '/',
        match sextet(b) {
            Some(v) => 0 <= v < 64 && sextet_char(v) as int == b,
            None => 0 <= d < 64 ==> sextet_char(d) as int != b,
        },
{
}

/// A number of 24 bits is made up of four groups of six.
proof fn lemma_six_by_six(n: int)
    requires
        0 <= n < 16777216,
    ensures
        0 <= n / 262144 < 64,
        0 <= n / 4096 % 64 < 64,
        0 <= n / 64 % 64 < 64,
        0 <= n % 64 < 64,
        n / 64 == n / 4096 * 64 + n / 64 % 64,
        n / 4096 == n / 262144 * 64 + n / 4096 % 64,
        n == n / 64 * 64 + n % 64,
{
}

/// The four characters of three bytes.
#[verifier::spinoff_prover]
proof fn lemma_quad_groups(b0: u8, b1: u8, b2: u8) -> (v: (int, int, int, int))
    ensures
        0 <= v.0 < 64 && 0 <= v.1 < 64 && 0 <= v.2 < 64 && 0 <= v.3 < 64,
        v.0 * 262144 + v.1 * 4096 + v.2 * 64 + v.3 == b0 * 65536 + b1 * 256 + b2,
        quad_text(b0, b1, b2) == seq![
            sextet_char(v.0),
            sextet_char(v.1),
            sextet_char(v.2),
            sextet_char(v.3),
        ],
{
    reveal(quad_text);
    let n = b0 * 65536 + b1 * 256 + b2;
    lemma_six_by_six(n);
    (n / 262144, n / 4096 % 64, n / 64 % 64, n % 64)
}

/// Bytes are written in base64 three by three, in four characters of six bits each, the
/// highest first. One or two bytes that are left fill up their last character with zeros,
/// and `=` fills up the four.
#[verifier::spinoff_prover]
pub proof fn law_base64_groups(bytes: Seq<u8>) -> (v: (int, int, int, int))
    requires
        bytes.len() > 0,
    ensures
        0 <= v.0 < 64 && 0 <= v.1 < 64 && 0 <= v.2 < 64 && 0 <= v.3 < 64,
        ({
            let t = base64_text(bytes);
            &&& t.len() >= 4
            &&& t[0] == sextet_char(v.0) && t[1] == sextet_char(v.1)
            &&& bytes.len() == 1 ==> v.0 * 64 + v.1 == bytes[0] * 16 && t[2] == '=' && t[3] == '='
                && t.len() == 4
            &&& bytes.len() == 2 ==> v.0 * 4096 + v.1 * 64 + v.2 == bytes[0] * 1024 + bytes[1] * 4
                && t[2] == sextet_char(v.2) && t[3] == '=' && t.len() == 4
            &&& bytes.len() >= 3 ==> v.0 * 262144 + v.1 * 4096 + v.2 * 64 + v.3 == bytes[0] * 65536
                + bytes[1] * 256 + bytes[2] && t[2] == sextet_char(v.2) && t[3] == sextet_char(v.3)
                && t.skip(4) == base64_text(bytes.skip(3))
        }),
        base64_text(Seq::empty()).len() == 0,
{
    if bytes.len() == 1 {
        lemma_quad_groups(bytes[0], 0, 0)
    } else if bytes.len() == 2 {
        lemma_quad_groups(bytes[0], bytes[1], 0)
    } else {
        let v = lemma_quad_groups(bytes[0], bytes[1], bytes[2]);
        assert(base64_text(bytes).skip(4) =~= base64_text(bytes.skip(3)));
        v
    }
}

/// A base64 text has four characters for every three bytes, and four for a rest.
#[verifier::spinoff_prover]
pub proof fn law_base64_length(bytes: Seq<u8>)
    ensures
        base64_text(bytes).len() == (bytes.len() + 2) / 3 * 4,
    decreases bytes.len(),
{
    if bytes.len() >= 3 {
        let rest = bytes.skip(3);
        let v = law_base64_groups(bytes);
        law_base64_length(rest);
        assert(base64_text(bytes).len() == 4 + base64_text(rest).len());
        assert((bytes.len() + 2) / 3 == (rest.len() + 2) / 3 + 1);
    } else if bytes.len() > 0 {
        let v = law_base64_groups(bytes);
        assert((bytes.len() + 2) / 3 == 1);
    }
}

proof fn lemma_quads_concat(a: Seq<u8>, b: Seq<u8>)
    requires
        a.len() % 4 == 0,
    ensures
        match (quads_bytes(a), quads_bytes(b)) {
            (Some(x), Some(y)) => quads_bytes(a + b) == Some(x + y),
            _ => quads_bytes(a + b) is None,
        },
    decreases a.len(),
{
    let whole = a + b;
    if a.len() == 0 {
        assert(whole =~= b);
        if let Some(y) = quads_bytes(b) {
            assert(Seq::<u8>::empty() + y =~= y);
        }
    } else {
        lemma_quads_concat(a.skip(4), b);
        assert(whole.skip(4) =~= a.skip(4) + b);
        assert(whole[0] == a[0] && whole[1] == a[1] && whole[2] == a[2] && whole[3] == a[3]);
        if let (Some(h), Some(x), Some(y)) = (
            quad_bytes(a[0], a[1], a[2], a[3]),
            quads_bytes(a.skip(4)),
            quads_bytes(b),
        ) {
            assert(h + (x + y) =~= (h + x) + y);
        }
    }
}

proof fn lemma_without_spaces_concat(a: Seq<u8>, b: Seq<u8>)
    ensures
        without_spaces(a + b) == without_spaces(a) + without_spaces(b),
    decreases b.len(),
{
    reveal(Seq::filter);
    if b.len() == 0 {
        assert(a + b =~= a);
        assert(without_spaces(b) =~= Seq::empty());
        assert(without_spaces(a) + without_spaces(b) =~= without_spaces(a));
    } else {
        lemma_without_spaces_concat(a, b.drop_last());
        assert((a + b).drop_last() =~= a + b.drop_last());
        assert(without_spaces(a + b) =~= without_spaces(a) + without_spaces(b));
    }
}

/// A blank, a tab, a line feed, a form feed or a carriage return anywhere in a base64 text
/// changes nothing.
pub proof fn law_base64_space_skipped(a: Seq<u8>, space: u8, b: Seq<u8>)
    requires
        space == ' ' as u8 || space == '\t' as u8 || space == '\n' as u8 || space == 12 || space
            == '\r' as u8,
    ensures
        base64_bytes(a + seq![space] + b) == base64_bytes(a + b),
{
    reveal(Seq::filter);
    lemma_without_spaces_concat(a + seq![space], b);
    lemma_without_spaces_concat(a, seq![space]);
    lemma_without_spaces_concat(a, b);
    assert(seq![space].drop_last() =~= Seq::empty());
    assert(Seq::<u8>::empty().filter(|x: u8| !ascii_space(x)) =~= Seq::empty());
    assert(without_spaces(seq![space]) =~= Seq::empty());
    assert(without_spaces(a) + Seq::<u8>::empty() =~= without_spaces(a));
}

/// Base64 texts one behind the other stand for their bytes one behind the other, padding
/// or not; and a text stays readable with one behind it only if both are.
#[verifier::spinoff_prover]
pub proof fn law_base64_goes_on(a: Seq<u8>, b: Seq<u8>)
    requires
        base64_bytes(a) is Ok,
    ensures
        match base64_bytes(b) {
            Ok(y) => base64_bytes(a + b) == Ok::<Seq<u8>, Seq<char>>(base64_bytes(a)->Ok_0 + y),
            Err(message) => base64_bytes(a + b) == Err::<Seq<u8>, Seq<char>>(message),
        },
{
    let (x, y) = (without_spaces(a), without_spaces(b));
    lemma_without_spaces_concat(a, b);
    assert(without_spaces(a + b) == x + y);
    assert(x.len() % 4 == 0);
    assert((x + y).len() % 4 == y.len() % 4);
    lemma_quads_concat(x, y);
    assert(base64_bytes(a) == Ok::<Seq<u8>, Seq<char>>(quads_bytes(x)->Some_0));
}

/// Four characters stand for the bytes that they stand for as one group.
proof fn lemma_one_quad(a: u8, b: u8, c: u8, d: u8)
    requires
        !ascii_space(a) && !ascii_space(b) && !ascii_space(c) && !ascii_space(d),
    ensures
        match quad_bytes(a, b, c, d) {
            Some(bytes) => base64_bytes(seq![a, b, c, d]) == Ok::<Seq<u8>, Seq<char>>(bytes),
            None => base64_bytes(seq![a, b, c, d]) == Err::<Seq<u8>, Seq<char>>(
                "invalid base64 character"@,
            ),
        },
{
    let s = seq![a, b, c, d];
    lemma_filter_keeps_all(s, |x: u8| !ascii_space(x));
    assert(s.skip(4) =~= Seq::empty());
    assert(quads_bytes(s.skip(4)) == Some(Seq::<u8>::empty()));
    if let Some(head) = quad_bytes(a, b, c, d) {
        assert(head + Seq::<u8>::empty() =~= head);
    }
}

/// A number of 24 bits is made up of three bytes.
proof fn lemma_three_bytes(n: int)
    requires
        0 <= n < 16777216,
    ensures
        0 <= n / 65536 < 256,
        0 <= n / 256 % 256 < 256,
        0 <= n % 256 < 256,
        n / 256 == n / 65536 * 256 + n / 256 % 256,
        n == n / 256 * 256 + n % 256,
{
}

/// Four characters of the alphabet, the last or the last two of which may be `=`, stand
/// for the bytes that their bits make up, one less for each `=`, and what is left of the
/// bits is not looked at. Any other four are no base64.
#[verifier::spinoff_prover]
pub proof fn law_base64_quad(a: u8, b: u8, c: u8, d: u8)
    requires
        !ascii_space(a) && !ascii_space(b) && !ascii_space(c) && !ascii_space(d),
    ensures
        ({
            let pad = '=' as u8;
            let bits = |x: u8|
                match sextet(x) {
                    Some(v) => v,
                    None => 0,
                };
            let n = bits(a) * 262144 + bits(b) * 4096 + bits(c) * 64 + bits(d);
            let fine = sextet(a) is Some && sextet(b) is Some && (sextet(c) is Some || c == pad)
                && (sextet(d) is Some || d == pad);
            match base64_bytes(seq![a, b, c, d]) {
                Ok(bytes) => {
                    &&& fine
                    &&& bytes.len() == 3 - (if c == pad {
                        1int
                    } else {
                        0
                    }) - (if d == pad {
                        1int
                    } else {
                        0
                    })
                    &&& bytes[0] * 65536 <= n < bytes[0] * 65536 + 65536
                    &&& bytes.len() >= 2 ==> bytes[0] * 65536 + bytes[1] * 256 <= n < bytes[0]
                        * 65536 + bytes[1] * 256 + 256
                    &&& bytes.len() >= 3 ==> bytes[0] * 65536 + bytes[1] * 256 + bytes[2] == n
                },
                Err(message) => !fine && message == "invalid base64 character"@,
            }
        }),
{
    lemma_one_quad(a, b, c, d);
    law_base64_alphabet(0, a);
    law_base64_alphabet(0, b);
    law_base64_alphabet(0, c);
    law_base64_alphabet(0, d);
    let bits = |x: u8|
        match sextet(x) {
            Some(v) => v,
            None => 0,
        };
    let n = bits(a) * 262144 + bits(b) * 4096 + bits(c) * 64 + bits(d);
    lemma_three_bytes(n);
    if quad_bytes(a, b, c, d) is Some {
        assert(padded_sextet(c) == Some(bits(c)));
        assert(padded_sextet(d) == Some(bits(d)));
    }
}

/// A text that, without white space, is not a whole number of fours is no base64; one
/// without any characters stands for no bytes.
pub proof fn law_base64_fours(s: Seq<u8>)
    requires
        forall|i: int| 0 <= i < s.len() ==> !ascii_space(#[trigger] s[i]),
    ensures
        s.len() % 4 != 0 ==> base64_bytes(s) == Err::<Seq<u8>, Seq<char>>(
            "base64 length must be a multiple of 4"@,
        ),
        s.len() == 0 ==> base64_bytes(s) == Ok::<Seq<u8>, Seq<char>>(Seq::empty()),
{
    lemma_filter_keeps_all(s, |x: u8| !ascii_space(x));
}

/// Bytes are written in base sixteen one by one, in two digits each, the higher first.
pub proof fn law_hex_shown(bytes: Seq<u8>, i: int)
    ensures
        hex_text(bytes).len() == 2 * bytes.len(),
        0 <= i < bytes.len() ==> hex_text(bytes)[2 * i] == digit_char(bytes[i] as int / 16)
            && hex_text(bytes)[2 * i + 1] == digit_char(bytes[i] as int % 16),
{
    assert((2 * i) / 2 == i && (2 * i) % 2 == 0);
    assert((2 * i + 1) / 2 == i && (2 * i + 1) % 2 == 1);
}

/// A digit in base sixteen is read in either case, and nothing else is.
pub proof fn law_hex_digits(b: u8, v: int)
    ensures
        match hex_digit(b) {
            Some(d) => 0 <= d < 16 && (digit_char(d) as int == b || d >= 10 && digit_char(d) as int
                - 32 == b),
            None => 0 <= v < 16 ==> digit_char(v) as int != b && (v >= 10 ==> digit_char(v) as int
                - 32 != b),
        },
{
}

/// A text of an even length is read in base sixteen pair by pair, each two digits, or a
/// plus and one. The first pair that is neither is named by its offset. A text of an odd
/// length is refused.
pub proof fn law_hex_read(s: Seq<u8>, i: int)
    ensures
        s.len() % 2 != 0 ==> hex_bytes(s) == Err::<Seq<u8>, Seq<char>>(
            "hex payload must have an even length"@,
        ),
        s.len() % 2 == 0 ==> match hex_bytes(s) {
            Ok(bytes) => bytes.len() == s.len() / 2 && (0 <= i < bytes.len() ==> {
                &&& s[2 * i] != '+' as u8 ==> match (hex_digit(s[2 * i]), hex_digit(s[2 * i + 1])) {
                    (Some(high), Some(low)) => bytes[i] == high * 16 + low,
                    _ => false,
                }
                &&& s[2 * i] == '+' as u8 ==> hex_digit(s[2 * i + 1]) == Some(bytes[i] as int)
            }),
            Err(message) => exists|at: int|
                #![trigger decimal(at as nat)]
                0 <= at < s.len() && at % 2 == 0 && message == "invalid hex byte at offset "@
                    + decimal(at as nat) && hex_pair(s[at], s[at + 1]) is None && forall|j: int|
                    0 <= j < at && j % 2 == 0 ==> hex_pair(#[trigger] s[j], s[j + 1]) is Some,
        },
{
    if s.len() % 2 == 0 {
        lemma_first_bad(s, 0);
        let at = first_bad_pair(s, 0);
        if let Ok(bytes) = hex_bytes(s) {
            if 0 <= i < bytes.len() {
                assert(hex_pair(s[2 * i], s[2 * i + 1]) is Some);
                law_hex_digits(s[2 * i], 0);
                law_hex_digits(s[2 * i + 1], 0);
            }
        } else {
            assert(bad_pair_message(at) == "invalid hex byte at offset "@ + decimal(at as nat));
        }
    }
}

proof fn lemma_first_bad(s: Seq<u8>, from: int)
    requires
        s.len() % 2 == 0,
        0 <= from <= s.len(),
        from % 2 == 0,
    ensures
        from <= first_bad_pair(s, from) <= s.len(),
        first_bad_pair(s, from) % 2 == 0,
        first_bad_pair(s, from) < s.len() ==> hex_pair(
            s[first_bad_pair(s, from)],
            s[first_bad_pair(s, from) + 1],
        ) is None,
        forall|j: int|
            from <= j < first_bad_pair(s, from) && j % 2 == 0 ==> hex_pair(
                #[trigger] s[j],
                s[j + 1],
            ) is Some,
    decreases s.len() - from,
{
    if from + 2 <= s.len() && hex_pair(s[from], s[from + 1]) is Some {
        lemma_first_bad(s, from + 2);
    }
}

/// A field is decoded by the encoding named: `utf8` and `text` take it for the text
/// itself, `base64` and `b64` for base64, `hex` for base sixteen; any other is refused by
/// its name. What is received is encoded by the same names, and by any other as text.
pub proof fn law_encodings(value: Seq<char>, bytes: Seq<u8>, encoding: Seq<char>)
    ensures
        field_bytes(value, "utf8"@) == Ok::<Seq<u8>, Seq<char>>(encode_utf8(value)),
        field_bytes(value, "text"@) == Ok::<Seq<u8>, Seq<char>>(encode_utf8(value)),
        field_bytes(value, "base64"@) == base64_bytes(encode_utf8(value)),
        field_bytes(value, "b64"@) == base64_bytes(encode_utf8(value)),
        field_bytes(value, "hex"@) == hex_bytes(encode_utf8(value)),
        encoding != "utf8"@ && encoding != "text"@ && encoding != "base64"@ && encoding != "b64"@
            && encoding != "hex"@ ==> field_bytes(value, encoding) == Err::<Seq<u8>, Seq<char>>(
            "unknown encoding: "@ + encoding + " (want utf8|base64|hex)"@,
        ),
        field_text(bytes, "base64"@) == base64_text(bytes),
        field_text(bytes, "b64"@) == base64_text(bytes),
        field_text(bytes, "hex"@) == hex_text(bytes),
        encoding != "base64"@ && encoding != "b64"@ && encoding != "hex"@ ==> field_text(
            bytes,
            encoding,
        ) == lossy_text(bytes),
        lossy_text(encode_utf8(value)) == value,
{
    reveal_strlit("utf8");
    reveal_strlit("text");
    reveal_strlit("base64");
    reveal_strlit("b64");
    reveal_strlit("hex");
    assert("utf8"@.len() == 4
        && "text"@.len() == 4
        && "base64"@.len() == 6
        && "b64"@.len() == 3
        && "hex"@.len() == 3);
    assert("utf8"@[0] == 'u');
    assert("text"@[0] == 't');
    assert("b64"@[0] == 'b');
    assert("hex"@[0] == 'h');
    encode_utf8_valid_utf8(value);
    encode_utf8_decode_utf8(value);
}

/// Decoding cuts no character in two, but in base sixteen, and there not in text of ASCII.
pub proof fn law_ascii_cut_cleanly(value: Seq<char>, encoding: Seq<char>)
    requires
        encoding != "hex"@ || is_ascii_chars(value),
    ensures
        field_cuts_cleanly(value, encoding),
{
    if encoding == "hex"@ {
        is_ascii_chars_encode_utf8(value);
        let s = encode_utf8(value);
        let bad = first_bad_pair(s, 0);
        if s.len() % 2 == 0 && bad + 2 < s.len() {
            lemma_first_bad(s, 0);
            assert(s[bad + 2] == value[bad + 2] as u8);
            assert(value[bad + 2] <= '\u{7f}');
        }
    }
}

} // verus!
