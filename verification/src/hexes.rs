//! Bytes as hexadecimal text.

use crate::json::JsonView;
use crate::text::{chars_of, decimal, decimal_text, join2, join3};
use vstd::prelude::*;
use vstd::utf8::encode_utf8;

verus! {

/// Why a text is not the hexadecimal form of any bytes.
#[derive(Debug, Clone, Copy, PartialEq, Eq)]
pub enum HexError {
    /// The byte at `index` is no hexadecimal digit; `c` is the character of
    /// its code.
    InvalidCharacter { c: char, index: usize },
    /// The text has an odd number of bytes.
    OddLength,
    /// The text does not fill a buffer of a given size.
    InvalidLength,
}

/// The value of a hexadecimal digit, of either case.
pub open spec fn hex_value(c: char) -> Option<u8> {
    if '0' <= c && c <= '9' {
        Some((c as u32 - '0' as u32) as u8)
    } else if 'a' <= c && c <= 'f' {
        Some((c as u32 - 'a' as u32 + 10) as u8)
    } else if 'A' <= c && c <= 'F' {
        Some((c as u32 - 'A' as u32 + 10) as u8)
    } else {
        None
    }
}

/// The hexadecimal digit of a value below sixteen, in lower case.
pub open spec fn hex_char(v: u8) -> char {
    if v < 10 {
        (('0' as u32 + v) as u32) as char
    } else {
        (('a' as u32 + v - 10) as u32) as char
    }
}

/// The hexadecimal text of bytes: two digits in lower case for each.
pub open spec fn hex_text(bytes: Seq<u8>) -> Seq<char> {
    Seq::new(
        2 * bytes.len(),
        |i: int| hex_char(if i % 2 == 0 { bytes[i / 2] / 16 } else { bytes[i / 2] % 16 }),
    )
}

/// The index of the first byte that is no hexadecimal digit; the length where
/// all are.
pub open spec fn first_bad(t: Seq<u8>) -> nat
    decreases t.len(),
{
    if t.len() == 0 || hex_value(t[0] as char) is None {
        0
    } else {
        1 + first_bad(t.skip(1))
    }
}

/// The bytes that a hexadecimal text of even length stands for.
pub open spec fn pairs_value(t: Seq<u8>) -> Seq<u8> {
    Seq::new(
        t.len() / 2,
        |i: int| (hex_value(t[2 * i] as char)->0 * 16 + hex_value(t[2 * i + 1] as char)->0) as u8,
    )
}

/// What strict decoding of a text, given by its bytes, gives.
pub open spec fn hex_decoded(t: Seq<u8>) -> Result<Seq<u8>, HexError> {
    if t.len() % 2 != 0 {
        Err(HexError::OddLength)
    } else if first_bad(t) < t.len() {
        Err(
            HexError::InvalidCharacter {
                c: t[first_bad(t) as int] as char,
                index: first_bad(t) as usize,
            },
        )
    } else {
        Ok(pairs_value(t))
    }
}

/// What a decoding result holds.
pub open spec fn decoded_view(r: Result<Vec<u8>, HexError>) -> Result<Seq<u8>, HexError> {
    match r {
        Ok(bytes) => Ok(bytes@),
        Err(e) => Err(e),
    }
}

/// Calls `hex::decode`.
///
/// Claimed: a text with an odd number of bytes gives `OddLength`; otherwise
/// the first byte that is no hexadecimal digit gives `InvalidCharacter` with
/// its index; otherwise the bytes come out that the pairs of digits stand
/// for. Digits of both cases count.
#[verifier::external_body]
pub(crate) fn hex_decode(data: &str) -> (r: Result<Vec<u8>, HexError>)
    ensures
        decoded_view(r) == hex_decoded(encode_utf8(data@)),
{
    match hex::decode(data) {
        Ok(bytes) => Ok(bytes),
        Err(hex::FromHexError::InvalidHexCharacter { c, index }) => {
            Err(HexError::InvalidCharacter { c, index })
        },
        Err(hex::FromHexError::OddLength) => Err(HexError::OddLength),
        Err(hex::FromHexError::InvalidStringLength) => Err(HexError::InvalidLength),
    }
}

/// Calls `hex::encode`.
///
/// Claimed: two digits in lower case come out for each byte, the high half
/// first.
#[verifier::external_body]
pub(crate) fn hex_encode(data: &[u8]) -> (r: String)
    ensures
        r@ == hex_text(data@),
{
    hex::encode(data)
}

/// How a character is written between quotes, as `{:?}` writes it.
pub uninterp spec fn quoted_char(c: char) -> Seq<char>;

/// Formats a character with `{:?}`.
///
/// Claimed: the text depends on the character alone.
#[verifier::external_body]
pub(crate) fn quote_char(c: char) -> (r: String)
    ensures
        r@ == quoted_char(c),
{
    format!("{:?}", c)
}

/// How a decoding error reads.
pub open spec fn hex_error_text(e: HexError) -> Seq<char> {
    match e {
        HexError::InvalidCharacter { c, index } => "Invalid character "@ + quoted_char(c)
            + " at position "@ + decimal(index as nat),
        HexError::OddLength => "Odd number of digits"@,
        HexError::InvalidLength => "Invalid string length"@,
    }
}

/// Says that a character, given between quotes, is no digit.
pub fn invalid_character(quoted: &str, index: usize) -> (r: String)
    ensures
        r@ == "Invalid character "@ + quoted@ + " at position "@ + decimal(index as nat),
{
    let head: String = join3("Invalid character ", quoted, " at position ");
    join2(head.as_str(), decimal_text(index as u128).as_str())
}

/// Writes a decoding error.
pub fn describe_hex_error(e: &HexError) -> (r: String)
    ensures
        r@ == hex_error_text(*e),
{
    match e {
        HexError::InvalidCharacter { c, index } => invalid_character(
            quote_char(*c).as_str(),
            *index,
        ),
        HexError::OddLength => "Odd number of digits".to_owned(),
        HexError::InvalidLength => "Invalid string length".to_owned(),
    }
}

/// The numeral of one hexadecimal digit.
pub(crate) fn hex_digit_text(v: u8) -> (r: &'static str)
    requires
        v < 16,
    ensures
        r@ == seq![hex_char(v)],
{
    proof {
        reveal_strlit("0");
        reveal_strlit("1");
        reveal_strlit("2");
        reveal_strlit("3");
        reveal_strlit("4");
        reveal_strlit("5");
        reveal_strlit("6");
        reveal_strlit("7");
        reveal_strlit("8");
        reveal_strlit("9");
        reveal_strlit("a");
        reveal_strlit("b");
        reveal_strlit("c");
        reveal_strlit("d");
        reveal_strlit("e");
        reveal_strlit("f");
    }
    match v {
        0 => "0",
        1 => "1",
        2 => "2",
        3 => "3",
        4 => "4",
        5 => "5",
        6 => "6",
        7 => "7",
        8 => "8",
        9 => "9",
        10 => "a",
        11 => "b",
        12 => "c",
        13 => "d",
        14 => "e",
        _ => "f",
    }
}

/// Writes bytes in hexadecimal.
pub fn bytes_to_hex(b: &[u8]) -> (r: String)
    ensures
        r@ == hex_text(b@),
{
    let mut out: String = String::new();
    let mut i: usize = 0;
    while i < b.len()
        invariant
            i <= b@.len(),
            out@ == hex_text(b@.take(i as int)),
        decreases b@.len() - i,
    {
        let byte: u8 = b[i];
        let ghost before = out@;
        out.append(hex_digit_text(byte / 16));
        out.append(hex_digit_text(byte % 16));
        proof {
            let now = b@.take(i + 1);
            let past = b@.take(i as int);
            assert(out@ =~= before.push(hex_char(byte / 16)).push(hex_char(byte % 16)));
            assert forall|k: int| 0 <= k < hex_text(now).len() implies out@[k] == hex_text(
                now,
            )[k] by {
                if k < 2 * i {
                    assert(now[k / 2] == past[k / 2]);
                    assert(hex_text(past)[k] == hex_text(now)[k]);
                } else {
                    assert(k / 2 == i);
                }
            }
            assert(out@ =~= hex_text(now));
        }
        i = i + 1;
    }
    assert(b@.take(i as int) =~= b@);
    out
}

/// The byte that a pair of characters stands for: two hexadecimal digits, or
/// a plus sign and one.
pub open spec fn pair_value(a: char, b: char) -> Option<u8> {
    match (hex_value(a), hex_value(b)) {
        (Some(x), Some(y)) => Some((x * 16 + y) as u8),
        (None, Some(y)) => if a == '+' {
            Some(y)
        } else {
            None
        },
        _ => None,
    }
}

/// The bytes that a text stands for, pair by pair; none where the text has an
/// odd length or a pair stands for no byte.
pub open spec fn hex_pairs(s: Seq<char>) -> Option<Seq<u8>> {
    if s.len() % 2 == 0 && (forall|i: int|
        0 <= i < s.len() / 2 ==> (#[trigger] pair_value(s[2 * i], s[2 * i + 1])) is Some) {
        Some(Seq::new(s.len() / 2, |i: int| pair_value(s[2 * i], s[2 * i + 1])->0))
    } else {
        None
    }
}

/// The value of a hexadecimal digit.
fn read_digit(c: char) -> (r: Option<u8>)
    ensures
        r == hex_value(c),
{
    if '0' <= c && c <= '9' {
        Some((c as u32 - '0' as u32) as u8)
    } else if 'a' <= c && c <= 'f' {
        Some((c as u32 - 'a' as u32 + 10) as u8)
    } else if 'A' <= c && c <= 'F' {
        Some((c as u32 - 'A' as u32 + 10) as u8)
    } else {
        None
    }
}

/// The byte that a pair of characters stands for.
fn read_pair(a: char, b: char) -> (r: Option<u8>)
    ensures
        r == pair_value(a, b),
{
    match (read_digit(a), read_digit(b)) {
        (Some(x), Some(y)) => Some(x * 16 + y),
        (None, Some(y)) => if a == '+' {
            Some(y)
        } else {
            None
        },
        _ => None,
    }
}

/// Reads a text pair by pair; none where it stands for no bytes.
pub fn read_hex(s: &str) -> (r: Option<Vec<u8>>)
    ensures
        (match r {
            Some(bytes) => Some(bytes@),
            None => None,
        }) == hex_pairs(s@),
{
    let cs: Vec<char> = chars_of(s);
    if cs.len() % 2 != 0 {
        return None;
    }
    let mut out: Vec<u8> = Vec::new();
    let mut i: usize = 0;
    while i < cs.len() / 2
        invariant
            i <= cs@.len() / 2,
            cs@ == s@,
            cs@.len() % 2 == 0,
            out@.len() == i,
            forall|j: int|
                0 <= j < i ==> (#[trigger] pair_value(cs@[2 * j], cs@[2 * j + 1])) == Some(out@[j]),
        decreases cs@.len() / 2 - i,
    {
        match read_pair(cs[2 * i], cs[2 * i + 1]) {
            Some(byte) => {
                out.push(byte);
            },
            None => {
                assert(pair_value(s@[2 * i], s@[2 * i + 1]) is None);
                return None;
            },
        }
        i = i + 1;
    }
    assert(out@ =~= hex_pairs(s@)->0);
    Some(out)
}

/// Reads a text that stands for bytes, pair by pair.
pub fn hex_to_bytes(s: &str) -> (r: Vec<u8>)
    requires
        hex_pairs(s@) is Some,
    ensures
        hex_pairs(s@) == Some(r@),
{
    read_hex(s).unwrap()
}

/// How a text fails to stand for bytes.
#[derive(Debug, Clone, Copy, PartialEq, Eq, Structural)]
pub enum PairFault {
    /// A pair is no byte.
    Digit,
    /// A pair is cut short: the text ends inside it, or a character reaches
    /// beyond it.
    Cut,
}

/// How a text first fails to stand for bytes, taken two bytes of its UTF-8
/// form at a time; none where it stands for bytes.
pub open spec fn first_fault(s: Seq<char>) -> Option<PairFault>
    decreases s.len(),
{
    if s.len() == 0 {
        None
    } else if (s[0] as u32) < 0x80 {
        if s.len() == 1 || (s[1] as u32) >= 0x80 {
            Some(PairFault::Cut)
        } else if pair_value(s[0], s[1]) is None {
            Some(PairFault::Digit)
        } else {
            first_fault(s.skip(2))
        }
    } else if (s[0] as u32) < 0x800 {
        Some(PairFault::Digit)
    } else {
        Some(PairFault::Cut)
    }
}

/// How many bytes of the UTF-8 form of a text the pairs before the first that
/// fails take; all where none fails.
pub open spec fn sound_bytes(s: Seq<char>) -> nat
    decreases s.len(),
{
    if s.len() < 2 || (s[0] as u32) >= 0x80 || (s[1] as u32) >= 0x80 || pair_value(s[0], s[1]) is None {
        0
    } else {
        2 + sound_bytes(s.skip(2))
    }
}

/// How a text first fails to stand for bytes, and how many bytes of its UTF-8
/// form stand before.
pub fn find_fault(s: &str) -> (r: Option<(PairFault, usize)>)
    ensures
        match r {
            Some((fault, at)) => first_fault(s@) == Some(fault) && at == sound_bytes(s@),
            None => first_fault(s@) is None,
        },
{
    let cs: Vec<char> = chars_of(s);
    let mut i: usize = 0;
    assert(s@.skip(0) =~= s@);
    while i < cs.len()
        invariant
            i <= cs@.len(),
            cs@ == s@,
            first_fault(s@) == first_fault(s@.skip(i as int)),
            sound_bytes(s@) == i + sound_bytes(s@.skip(i as int)),
        decreases cs@.len() - i,
    {
        let ghost rest = s@.skip(i as int);
        assert(rest[0] == cs@[i as int]);
        if (cs[i] as u32) >= 0x800 {
            return Some((PairFault::Cut, i));
        }
        if (cs[i] as u32) >= 0x80 {
            return Some((PairFault::Digit, i));
        }
        if cs.len() - i == 1 {
            return Some((PairFault::Cut, i));
        }
        assert(rest[1] == cs@[i + 1]);
        if (cs[i + 1] as u32) >= 0x80 {
            return Some((PairFault::Cut, i));
        }
        if read_pair(cs[i], cs[i + 1]).is_none() {
            return Some((PairFault::Digit, i));
        }
        assert(rest.skip(2) =~= s@.skip(i + 2));
        i = i + 2;
    }
    None
}

/// A copy of bytes.
pub(crate) fn copy_bytes(bytes: &Vec<u8>) -> (r: Vec<u8>)
    ensures
        r@ == bytes@,
{
    let r: Vec<u8> = bytes.clone();
    assert(r@ =~= bytes@);
    r
}

/// Writes a block id in hexadecimal.
pub fn block_id_hex(id: &[u8; 32]) -> (r: String)
    ensures
        r@ == hex_text(id@),
{
    bytes_to_hex(id.as_slice())
}

/// A digit reads back as its value.
proof fn lemma_digit_reads_back(v: u8)
    requires
        v < 16,
    ensures
        hex_value(hex_char(v)) == Some(v),
        (hex_char(v) as u8) as char == hex_char(v),
        hex_char(v) as u32 <= 127,
{
}

/// No byte is bad where all are digits.
proof fn lemma_first_bad_none(t: Seq<u8>)
    requires
        forall|i: int| 0 <= i < t.len() ==> hex_value(#[trigger] t[i] as char) is Some,
    ensures
        first_bad(t) == t.len(),
    decreases t.len(),
{
    if t.len() > 0 {
        lemma_first_bad_none(t.skip(1));
    }
}

/// The hexadecimal text of bytes reads back as those bytes, both pair by pair
/// and by strict decoding.
pub proof fn law_hex_reads_back(bytes: Seq<u8>)
    ensures
        hex_pairs(hex_text(bytes)) == Some(bytes),
        hex_decoded(encode_utf8(hex_text(bytes))) == Ok::<Seq<u8>, HexError>(bytes),
{
    let s = hex_text(bytes);
    assert forall|i: int| 0 <= i < s.len() implies hex_value(#[trigger] s[i]) is Some && (s[i]
        as u8) as char == s[i] && s[i] as u32 <= 127 by {
        lemma_digit_reads_back(bytes[i / 2] / 16);
        lemma_digit_reads_back(bytes[i / 2] % 16);
    }
    assert forall|i: int| 0 <= i < bytes.len() implies #[trigger] pair_value(s[2 * i], s[2 * i + 1])
        == Some(bytes[i]) by {
        assert((2 * i) / 2 == i && (2 * i + 1) / 2 == i);
        lemma_digit_reads_back(bytes[i] / 16);
        lemma_digit_reads_back(bytes[i] % 16);
    }
    assert(hex_pairs(s)->0 =~= bytes);
    assert(vstd::utf8::is_ascii_chars(s));
    vstd::utf8::is_ascii_chars_encode_utf8(s);
    let t = encode_utf8(s);
    assert forall|i: int| 0 <= i < t.len() implies hex_value(#[trigger] t[i] as char) is Some by {
        assert(s[i] as u32 <= 127);
    }
    lemma_first_bad_none(t);
    assert forall|i: int| 0 <= i < bytes.len() implies pairs_value(t)[i] == bytes[i] by {
        assert(pair_value(s[2 * i], s[2 * i + 1]) == Some(bytes[i]));
        assert(hex_value(s[2 * i]) is Some && hex_value(s[2 * i + 1]) is Some);
    }
    assert(pairs_value(t) =~= bytes);
}

/// A text stands for bytes just where no pair of it fails.
pub proof fn law_hex_faults(s: Seq<char>)
    ensures
        hex_pairs(s) is Some <==> first_fault(s) is None,
    decreases s.len(),
{
    if s.len() >= 2 {
        let rest = s.skip(2);
        law_hex_faults(rest);
        if hex_pairs(s) is Some {
            assert(pair_value(s[0], s[1]) is Some) by {
                let first: int = 0;
                assert(pair_value(s[2 * first], s[2 * first + 1]) is Some);
            }
            assert forall|i: int| 0 <= i < rest.len() / 2 implies (#[trigger] pair_value(
                rest[2 * i],
                rest[2 * i + 1],
            )) is Some by {
                assert(pair_value(s[2 * (i + 1)], s[2 * (i + 1) + 1]) is Some);
            }
        }
        if first_fault(s) is None {
            assert forall|i: int| 0 <= i < s.len() / 2 implies (#[trigger] pair_value(
                s[2 * i],
                s[2 * i + 1],
            )) is Some by {
                if i > 0 {
                    assert(pair_value(rest[2 * (i - 1)], rest[2 * (i - 1) + 1]) is Some);
                }
            }
        }
    }
}

/// Different bytes have different hexadecimal texts.
pub proof fn law_hex_tells_apart(a: Seq<u8>, b: Seq<u8>)
    requires
        hex_text(a) == hex_text(b),
    ensures
        a == b,
{
    law_hex_reads_back(a);
    law_hex_reads_back(b);
}

/// Whether a document is a text in which bytes are spelled in hexadecimal.
pub open spec fn spells(doc: JsonView, bytes: Seq<u8>) -> bool {
    doc matches JsonView::Text(text) && hex_decoded(encode_utf8(text)) == Ok::<Seq<u8>, HexError>(
        bytes,
    )
}

/// Each byte takes two characters of its hexadecimal text, the high half first:
/// the digits from 0 to 9, then the letters from a to f.
pub proof fn law_hex_digits(bytes: Seq<u8>, i: int)
    requires
        0 <= i < bytes.len(),
    ensures
        hex_text(bytes).len() == 2 * bytes.len(),
        hex_text(bytes)[2 * i] as u32 == if bytes[i] / 16 < 10 {
            0x30 + bytes[i] / 16
        } else {
            0x57 + bytes[i] / 16
        },
        hex_text(bytes)[2 * i + 1] as u32 == if bytes[i] % 16 < 10 {
            0x30 + bytes[i] % 16
        } else {
            0x57 + bytes[i] % 16
        },
{
    assert((2 * i) / 2 == i && (2 * i + 1) / 2 == i);
}

/// A character is a digit by its code.
proof fn lemma_digit(c: char)
    ensures
        is_digit(c) <==> hex_value(c) is Some,
        is_digit(c) ==> hex_value(c)->0 == digit_of(c),
{
}

/// Whether the characters of a pair are two digits, or a plus sign and a digit.
pub open spec fn pair_given(s: Seq<char>, i: int) -> bool {
    &&& is_digit(s[2 * i]) || s[2 * i] == '+'
    &&& is_digit(s[2 * i + 1])
}

/// Read pair by pair, a text stands for bytes just where its length is even and
/// each pair is two digits of either case, or a plus sign before a digit; the
/// byte is sixteen times the first digit and the second.
pub proof fn law_hex_pairs(s: Seq<char>)
    ensures
        hex_pairs(s) is Some <==> s.len() % 2 == 0 && forall|i: int|
            0 <= i < s.len() / 2 ==> #[trigger] pair_given(s, i),
        hex_pairs(s) matches Some(bytes) ==> {
            &&& bytes.len() == s.len() / 2
            &&& forall|i: int|
                0 <= i < bytes.len() ==> #[trigger] bytes[i] == if s[2 * i] == '+' {
                    digit_of(s[2 * i + 1])
                } else {
                    16 * digit_of(s[2 * i]) + digit_of(s[2 * i + 1])
                }
        },
{
    assert forall|i: int| 0 <= i < s.len() / 2 implies (#[trigger] pair_given(s, i) <==> pair_value(
        s[2 * i],
        s[2 * i + 1],
    ) is Some) by {
        lemma_digit(s[2 * i]);
        lemma_digit(s[2 * i + 1]);
    }
    if hex_pairs(s) is Some {
        let bytes = hex_pairs(s)->0;
        assert forall|i: int| 0 <= i < bytes.len() implies #[trigger] bytes[i] == if s[2 * i]
            == '+' {
            digit_of(s[2 * i + 1])
        } else {
            16 * digit_of(s[2 * i]) + digit_of(s[2 * i + 1])
        } by {
            assert(pair_given(s, i) <==> pair_value(s[2 * i], s[2 * i + 1]) is Some);
            lemma_digit(s[2 * i]);
            lemma_digit(s[2 * i + 1]);
        }
        assert forall|i: int| 0 <= i < s.len() / 2 implies #[trigger] pair_given(s, i) by {
            assert(pair_value(s[2 * i], s[2 * i + 1]) is Some);
        }
    }
    if s.len() % 2 == 0 && forall|i: int| 0 <= i < s.len() / 2 ==> #[trigger] pair_given(s, i) {
        assert forall|i: int| 0 <= i < s.len() / 2 implies (#[trigger] pair_value(
            s[2 * i],
            s[2 * i + 1],
        )) is Some by {
            assert(pair_given(s, i));
        }
    }
}

/// Whether a character is a hexadecimal digit: 0 to 9, a to f or A to F.
pub open spec fn is_digit(c: char) -> bool {
    0x30 <= c as u32 <= 0x39 || 0x61 <= c as u32 <= 0x66 || 0x41 <= c as u32 <= 0x46
}

/// What a hexadecimal digit counts.
pub open spec fn digit_of(c: char) -> int {
    if c as u32 <= 0x39 {
        c as u32 - 0x30
    } else if c as u32 <= 0x46 {
        c as u32 - 0x37
    } else {
        c as u32 - 0x57
    }
}

/// Where a text fails to stand for bytes, the pairs before the fault are ASCII
/// and stand for bytes. The fault is a pair cut short where the text ends inside
/// it, or a character of three or more bytes begins it, or its first character
/// is ASCII and its second is not; it is a pair of wrong digits where its first
/// character has two bytes, or both are ASCII and do not stand for a byte.
pub proof fn law_hex_fault_place(s: Seq<char>)
    ensures
        sound_bytes(s) % 2 == 0,
        sound_bytes(s) <= s.len(),
        forall|i: int| 0 <= i < sound_bytes(s) ==> (#[trigger] s[i] as u32) < 0x80,
        hex_pairs(s.take(sound_bytes(s) as int)) is Some,
        first_fault(s) is None <==> sound_bytes(s) == s.len(),
        first_fault(s) matches Some(fault) ==> {
            let at = sound_bytes(s) as int;
            &&& at < s.len()
            &&& fault == PairFault::Cut <==> s[at] as u32 >= 0x800 || ((s[at] as u32) < 0x80 && (at
                + 1 == s.len() || s[at + 1] as u32 >= 0x80))
            &&& fault == PairFault::Digit <==> 0x80 <= s[at] as u32 <= 0x7ff || ((s[at] as u32)
                < 0x80 && at + 1 < s.len() && (s[at + 1] as u32) < 0x80 && hex_pairs(
                seq![s[at], s[at + 1]],
            ) is None)
        },
    decreases s.len(),
{
    let at = sound_bytes(s) as int;
    let fault = first_fault(s);
    assert forall|a: char, b: char| hex_pairs(#[trigger] seq![a, b]) is Some <==> pair_value(
        a,
        b,
    ) is Some by {
        let two = seq![a, b];
        let first: int = 0;
        if hex_pairs(two) is Some {
            assert(pair_value(two[2 * first], two[2 * first + 1]) is Some);
        }
        if pair_value(a, b) is Some {
            assert forall|i: int| 0 <= i < two.len() / 2 implies (#[trigger] pair_value(
                two[2 * i],
                two[2 * i + 1],
            )) is Some by {
                assert(i == 0);
            }
        }
    }
    if at == 0 {
        assert(s.take(0).len() == 0);
        assert(hex_pairs(s.take(0)) is Some);
    } else {
        let rest = s.skip(2);
        law_hex_fault_place(rest);
        let before = s.take(at);
        let behind = rest.take(at - 2);
        assert forall|i: int| 0 <= i < at implies (#[trigger] s[i] as u32) < 0x80 by {
            if i >= 2 {
                assert(s[i] == rest[i - 2]);
            }
        }
        assert forall|i: int| 0 <= i < before.len() / 2 implies (#[trigger] pair_value(
            before[2 * i],
            before[2 * i + 1],
        )) is Some by {
            if i > 0 {
                assert(pair_value(behind[2 * (i - 1)], behind[2 * (i - 1) + 1]) is Some);
            }
        }
        assert(first_fault(s) == first_fault(rest));
        if first_fault(rest) is Some {
            assert(rest[at - 2] == s[at]);
            if at + 1 < s.len() {
                assert(rest[at - 1] == s[at + 1]);
            }
        }
    }
}

/// A decoding error says that the number of digits is odd, or which character
/// stands where no digit does.
pub proof fn law_hex_error_text(c: char, index: usize)
    ensures
        hex_error_text(HexError::OddLength) == "Odd number of digits"@,
        hex_error_text(HexError::InvalidLength) == "Invalid string length"@,
        hex_error_text(HexError::InvalidCharacter { c, index }) == "Invalid character "@
            + quoted_char(c) + " at position "@ + decimal(index as nat),
{
}

} // verus!
