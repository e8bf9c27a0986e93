//! Byte strings that are shown as unpadded URL-safe Base64.

use crate::error::Error;
use crate::text;
use vstd::prelude::*;

verus! {

/// Bytes whose textual form is unpadded URL-safe Base64.
#[derive(Debug, PartialEq, Eq)]
pub struct Base64(pub Vec<u8>);

impl View for Base64 {
    type V = Seq<u8>;

    open spec fn view(&self) -> Seq<u8> {
        self.0@
    }
}

impl Clone for Base64 {
    fn clone(&self) -> (copy: Self)
        ensures
            copy@ == self@,
    {
        Base64(vstd::slice::slice_to_vec(self.0.as_slice()))
    }
}

/// The character that stands for six bits.
pub open spec fn digit(v: nat) -> char {
    if v < 26 {
        ('A' as nat + v) as char
    } else if v < 52 {
        ('a' as nat + (v - 26)) as char
    } else if v < 62 {
        ('0' as nat + (v - 52)) as char
    } else if v == 62 {
        '-'
    } else {
        '_'
    }
}

/// The six bits that a character stands for.
pub open spec fn digit_value(c: char) -> Option<nat> {
    if 'A' <= c <= 'Z' {
        Some((c as int - 'A' as int) as nat)
    } else if 'a' <= c <= 'z' {
        Some((c as int - 'a' as int + 26) as nat)
    } else if '0' <= c <= '9' {
        Some((c as int - '0' as int + 52) as nat)
    } else if c == '-' {
        Some(62)
    } else if c == '_' {
        Some(63)
    } else {
        None
    }
}

/// Unpadded URL-safe Base64: four characters for every three bytes, and two or three characters
/// for the one or two bytes that are left over.
pub open spec fn encode(bytes: Seq<u8>) -> Seq<char>
    decreases bytes.len(),
{
    if bytes.len() == 0 {
        Seq::empty()
    } else if bytes.len() == 1 {
        let a = bytes[0] as nat;
        seq![digit(a / 4), digit(a % 4 * 16)]
    } else if bytes.len() == 2 {
        let (a, b) = (bytes[0] as nat, bytes[1] as nat);
        seq![digit(a / 4), digit(a % 4 * 16 + b / 16), digit(b % 16 * 4)]
    } else {
        let (a, b, c) = (bytes[0] as nat, bytes[1] as nat, bytes[2] as nat);
        seq![
            digit(a / 4),
            digit(a % 4 * 16 + b / 16),
            digit(b % 16 * 4 + c / 64),
            digit(c % 64),
        ] + encode(bytes.skip(3))
    }
}

/// The bytes that `text` encodes, if any.
pub open spec fn decode(text: Seq<char>) -> Option<Seq<u8>>
    decreases text.len(),
{
    if text.len() == 0 {
        Some(Seq::empty())
    } else if text.len() == 1 {
        None
    } else if text.len() == 2 {
        match (digit_value(text[0]), digit_value(text[1])) {
            (Some(p), Some(q)) => if q % 16 == 0 {
                Some(seq![(p * 4 + q / 16) as u8])
            } else {
                None
            },
            _ => None,
        }
    } else if text.len() == 3 {
        match (digit_value(text[0]), digit_value(text[1]), digit_value(text[2])) {
            (Some(p), Some(q), Some(r)) => if r % 4 == 0 {
                Some(seq![(p * 4 + q / 16) as u8, (q % 16 * 16 + r / 4) as u8])
            } else {
                None
            },
            _ => None,
        }
    } else {
        match (
            digit_value(text[0]),
            digit_value(text[1]),
            digit_value(text[2]),
            digit_value(text[3]),
            decode(text.skip(4)),
        ) {
            (Some(p), Some(q), Some(r), Some(s), Some(rest)) => Some(
                seq![
                    (p * 4 + q / 16) as u8,
                    (q % 16 * 16 + r / 4) as u8,
                    (r % 4 * 64 + s) as u8,
                ] + rest,
            ),
            _ => None,
        }
    }
}

proof fn lemma_digit(v: nat)
    requires
        v < 64,
    ensures
        digit_value(digit(v)) == Some(v),
{
}

proof fn lemma_digit_value(c: char)
    ensures
        digit_value(c) matches Some(v) ==> v < 64 && digit(v) == c,
{
}

/// Text that was written for some bytes is read back as those bytes.
pub proof fn decode_reads_encode(bytes: Seq<u8>)
    ensures
        decode(encode(bytes)) == Some(bytes),
    decreases bytes.len(),
{
    let text = encode(bytes);
    if bytes.len() == 0 {
        assert(bytes =~= Seq::empty());
    } else if bytes.len() == 1 {
        let a = bytes[0] as nat;
        lemma_digit(a / 4);
        lemma_digit(a % 4 * 16);
        assert(decode(text).unwrap() =~= bytes);
    } else if bytes.len() == 2 {
        let (a, b) = (bytes[0] as nat, bytes[1] as nat);
        lemma_digit(a / 4);
        lemma_digit(a % 4 * 16 + b / 16);
        lemma_digit(b % 16 * 4);
        assert(decode(text).unwrap() =~= bytes);
    } else {
        let (a, b, c) = (bytes[0] as nat, bytes[1] as nat, bytes[2] as nat);
        lemma_digit(a / 4);
        lemma_digit(a % 4 * 16 + b / 16);
        lemma_digit(b % 16 * 4 + c / 64);
        lemma_digit(c % 64);
        assert(text.skip(4) =~= encode(bytes.skip(3)));
        decode_reads_encode(bytes.skip(3));
        assert(decode(text).unwrap() =~= bytes);
    }
}

/// Four groups of six bits and the three bytes that they make up give each other.
proof fn lemma_regroup(p: nat, q: nat, r: nat, s: nat)
    requires
        p < 64,
        q < 64,
        r < 64,
        s < 64,
    ensures
        ({
            let (a, b, c) = (p * 4 + q / 16, q % 16 * 16 + r / 4, r % 4 * 64 + s);
            &&& a < 256 && b < 256 && c < 256
            &&& a / 4 == p
            &&& a % 4 * 16 + b / 16 == q
            &&& b % 16 * 4 + c / 64 == r
            &&& c % 64 == s
        }),
{
}

/// Text that is read as some bytes is what is written for those bytes.
pub proof fn encode_writes_decode(text: Seq<char>)
    ensures
        decode(text) matches Some(bytes) ==> encode(bytes) == text,
    decreases text.len(),
{
    if let Some(bytes) = decode(text) {
        if text.len() == 0 {
            assert(text =~= Seq::empty());
        } else {
            lemma_digit_value(text[0]);
            lemma_digit_value(text[1]);
            let p = digit_value(text[0]).unwrap();
            let q = digit_value(text[1]).unwrap();
            if text.len() == 2 {
                lemma_regroup(p, q, 0, 0);
                assert(encode(bytes) =~= text);
            } else {
                lemma_digit_value(text[2]);
                let r = digit_value(text[2]).unwrap();
                if text.len() == 3 {
                    lemma_regroup(p, q, r, 0);
                    assert(encode(bytes) =~= text);
                } else {
                    lemma_digit_value(text[3]);
                    lemma_regroup(p, q, r, digit_value(text[3]).unwrap());
                    encode_writes_decode(text.skip(4));
                    lemma_decode_step(text);
                    assert(encode(bytes) =~= text) by {
                        assert(text =~= seq![text[0], text[1], text[2], text[3]] + text.skip(4));
                    }
                }
            }
        }
    }
}

/// What the first four characters of a longer text stand for.
proof fn lemma_decode_step(text: Seq<char>)
    requires
        text.len() >= 4,
        decode(text) is Some,
    ensures
        decode(text.skip(4)) is Some,
        ({
            let bytes = decode(text).unwrap();
            let p = digit_value(text[0]).unwrap();
            let q = digit_value(text[1]).unwrap();
            let r = digit_value(text[2]).unwrap();
            let s = digit_value(text[3]).unwrap();
            &&& bytes.len() >= 3
            &&& bytes[0] == (p * 4 + q / 16) as u8
            &&& bytes[1] == (q % 16 * 16 + r / 4) as u8
            &&& bytes[2] == (r % 4 * 64 + s) as u8
            &&& bytes.skip(3) == decode(text.skip(4)).unwrap()
        }),
{
    assert(decode(text).unwrap().skip(3) =~= decode(text.skip(4)).unwrap());
}

fn digit_char(v: u8) -> (c: char)
    requires
        v < 64,
    ensures
        c == digit(v as nat),
{
    if v < 26 {
        (65 + v) as char
    } else if v < 52 {
        (97 + (v - 26)) as char
    } else if v < 62 {
        (48 + (v - 52)) as char
    } else if v == 62 {
        '-'
    } else {
        '_'
    }
}

fn char_value(c: char) -> (v: Option<u8>)
    ensures
        match v {
            Some(n) => n < 64 && digit_value(c) == Some(n as nat),
            None => digit_value(c) is None,
        },
{
    if 'A' <= c && c <= 'Z' {
        Some((c as u32 - 65) as u8)
    } else if 'a' <= c && c <= 'z' {
        Some((c as u32 - 97 + 26) as u8)
    } else if '0' <= c && c <= '9' {
        Some((c as u32 - 48 + 52) as u8)
    } else if c == '-' {
        Some(62)
    } else if c == '_' {
        Some(63)
    } else {
        None
    }
}

impl Base64 {
    /// The unpadded URL-safe Base64 form of the bytes.
    pub fn to_string(&self) -> (out: String)
        ensures
            out@ == encode(self@),
    {
        let mut out = String::new();
        let total: usize = self.0.len();
        let mut i: usize = 0;
        assert(self@.skip(0) =~= self@);
        while total - i >= 3
            invariant
                i <= total == self@.len(),
                out@ + encode(self@.skip(i as int)) =~= encode(self@),
            decreases total - i,
        {
            let ghost before = out@;
            let ghost here = self@.skip(i as int);
            let a: u8 = self.0[i];
            let b: u8 = self.0[i + 1];
            let c: u8 = self.0[i + 2];
            out.push(digit_char(a / 4));
            out.push(digit_char(a % 4 * 16 + b / 16));
            out.push(digit_char(b % 16 * 4 + c / 64));
            out.push(digit_char(c % 64));
            proof {
                assert(here.skip(3) =~= self@.skip(i + 3));
                assert(out@ + encode(here.skip(3)) =~= before + encode(here));
            }
            i = i + 3;
        }
        let ghost here = self@.skip(i as int);
        let ghost before = out@;
        if total - i == 1 {
            let a: u8 = self.0[i];
            out.push(digit_char(a / 4));
            out.push(digit_char(a % 4 * 16));
            assert(out@ =~= before + encode(here));
        } else if total - i == 2 {
            let a: u8 = self.0[i];
            let b: u8 = self.0[i + 1];
            out.push(digit_char(a / 4));
            out.push(digit_char(a % 4 * 16 + b / 16));
            out.push(digit_char(b % 16 * 4));
            assert(out@ =~= before + encode(here));
        } else {
            assert(out@ =~= before + encode(here));
        }
        out
    }

    /// Reads unpadded URL-safe Base64.
    pub fn from_str(text: &str) -> (found: Result<Base64, Error>)
        ensures
            match found {
                Ok(bytes) => encode(bytes@) == text@,
                Err(e) => e == Error::InvalidBase64 && forall|bytes: Seq<u8>| #[trigger]
                    encode(bytes) != text@,
            },
    {
        proof {
            encode_writes_decode(text@);
            assert forall|bytes: Seq<u8>| #[trigger] encode(bytes) == text@ implies decode(text@)
                == Some(bytes) by {
                decode_reads_encode(bytes);
            }
        }
        match decode_chars(&text::chars_of(text)) {
            Some(bytes) => Ok(Base64(bytes)),
            None => Err(Error::InvalidBase64),
        }
    }

    /// The UTF-8 bytes of `text`.
    pub fn from_utf8_str(text: &str) -> (bytes: Base64)
        ensures
            bytes@ == vstd::utf8::encode_utf8(text@),
    {
        Base64(vstd::slice::slice_to_vec(text.as_bytes()))
    }
}

fn decode_chars(text: &Vec<char>) -> (found: Option<Vec<u8>>)
    ensures
        match found {
            Some(bytes) => decode(text@) == Some(bytes@),
            None => decode(text@) is None,
        },
{
    let mut out: Vec<u8> = Vec::new();
    let total: usize = text.len();
    let mut i: usize = 0;
    assert(text@.skip(0) =~= text@);
    while total - i >= 4
        invariant
            i <= total == text@.len(),
            match decode(text@.skip(i as int)) {
                Some(rest) => decode(text@) == Some(out@ + rest),
                None => decode(text@) is None,
            },
        decreases total - i,
    {
        let ghost before = out@;
        let ghost here = text@.skip(i as int);
        match (
            char_value(text[i]),
            char_value(text[i + 1]),
            char_value(text[i + 2]),
            char_value(text[i + 3]),
        ) {
            (Some(p), Some(q), Some(r), Some(s)) => {
                out.push(p * 4 + q / 16);
                out.push(q % 16 * 16 + r / 4);
                out.push(r % 4 * 64 + s);
                proof {
                    assert(here.skip(4) =~= text@.skip(i + 4));
                    if let Some(rest) = decode(here.skip(4)) {
                        assert(before + decode(here).unwrap() =~= out@ + rest);
                    }
                }
            },
            _ => {
                return None;
            },
        }
        i = i + 4;
    }
    let ghost here = text@.skip(i as int);
    let ghost before = out@;
    if total - i == 1 {
        return None;
    }
    if total - i >= 2 {
        match (char_value(text[i]), char_value(text[i + 1])) {
            (Some(p), Some(q)) => {
                out.push(p * 4 + q / 16);
                if total - i == 3 {
                    match char_value(text[i + 2]) {
                        Some(r) => {
                            if r % 4 != 0 {
                                return None;
                            }
                            out.push(q % 16 * 16 + r / 4);
                        },
                        None => {
                            return None;
                        },
                    }
                } else if q % 16 != 0 {
                    return None;
                }
            },
            _ => {
                return None;
            },
        }
    }
    assert(out@ =~= before + decode(here).unwrap());
    Some(out)
}

/// The characters for the values from 0 to 63.
proof fn lemma_alphabet(v: nat)
    requires
        v < 64,
    ensures
        "ABCDEFGHIJKLMNOPQRSTUVWXYZabcdefghijklmnopqrstuvwxyz0123456789-_"@.len() == 64,
        digit(v)
            == "ABCDEFGHIJKLMNOPQRSTUVWXYZabcdefghijklmnopqrstuvwxyz0123456789-_"@[v as int],
{
    reveal_strlit("ABCDEFGHIJKLMNOPQRSTUVWXYZabcdefghijklmnopqrstuvwxyz0123456789-_");
}

/// The number that three bytes from `at` spell, where bytes behind the end count as zero.
pub open spec fn three_bytes(bytes: Seq<u8>, at: int) -> int {
    let byte = |i: int| if 0 <= i < bytes.len() { bytes[i] as int } else { 0 };
    65536 * byte(at) + 256 * byte(at + 1) + byte(at + 2)
}

proof fn lemma_group_digits(a: nat, b: nat, c: nat)
    requires
        a < 256,
        b < 256,
        c < 256,
    ensures
        ({
            let group = 65536 * a as int + 256 * b + c;
            &&& group / 262144 % 64 == a / 4
            &&& group / 4096 % 64 == a % 4 * 16 + b / 16
            &&& group / 64 % 64 == b % 16 * 4 + c / 64
            &&& group % 64 == c % 64
        }),
{
    lemma_base_64((a / 4) as int, (a % 4 * 16 + b / 16) as int, (b % 16 * 4 + c / 64) as int, (c
        % 64) as int);
}

proof fn lemma_base_64(p: int, q: int, r: int, s: int)
    requires
        0 <= p < 64,
        0 <= q < 64,
        0 <= r < 64,
        0 <= s < 64,
    ensures
        ({
            let group = 262144 * p + 4096 * q + 64 * r + s;
            &&& group / 262144 % 64 == p
            &&& group / 4096 % 64 == q
            &&& group / 64 % 64 == r
            &&& group % 64 == s
        }),
{
    let group = 262144 * p + 4096 * q + 64 * r + s;
    assert(group / 262144 == p);
    assert(group / 4096 == 64 * p + q);
    assert(group / 64 == 4096 * p + 64 * q + r);
}

proof fn lemma_first_characters(bytes: Seq<u8>, k: int)
    requires
        0 <= k < 4,
        k < encode(bytes).len(),
    ensures
        ({
            let alphabet = "ABCDEFGHIJKLMNOPQRSTUVWXYZabcdefghijklmnopqrstuvwxyz0123456789-_"@;
            let group = three_bytes(bytes, 0);
            &&& alphabet.len() == 64
            &&& k == 0 ==> encode(bytes)[k] == alphabet[group / 262144 % 64]
            &&& k == 1 ==> encode(bytes)[k] == alphabet[group / 4096 % 64]
            &&& k == 2 ==> encode(bytes)[k] == alphabet[group / 64 % 64]
            &&& k == 3 ==> encode(bytes)[k] == alphabet[group % 64]
        }),
{
    let a = bytes[0] as nat;
    let b: nat = if bytes.len() > 1 {
        bytes[1] as nat
    } else {
        0
    };
    let c: nat = if bytes.len() > 2 {
        bytes[2] as nat
    } else {
        0
    };
    assert(three_bytes(bytes, 0) == 65536 * a as int + 256 * b + c);
    lemma_group_digits(a, b, c);
    lemma_alphabet(a / 4);
    lemma_alphabet(a % 4 * 16 + b / 16);
    lemma_alphabet(b % 16 * 4 + c / 64);
    lemma_alphabet(c % 64);
}

/// Four characters are written for every three bytes, and as many as hold the bits of what is left
/// over.
pub proof fn characters_hold_six_bits(bytes: Seq<u8>)
    ensures
        encode(bytes).len() == (8 * bytes.len() + 5) / 6,
    decreases bytes.len(),
{
    if bytes.len() > 2 {
        characters_hold_six_bits(bytes.skip(3));
    }
}

/// Every three bytes are written as the four digits, in base 64, of the number that they spell.
pub proof fn three_bytes_make_four_characters(bytes: Seq<u8>, k: int)
    requires
        0 <= k < encode(bytes).len(),
    ensures
        ({
            let alphabet = "ABCDEFGHIJKLMNOPQRSTUVWXYZabcdefghijklmnopqrstuvwxyz0123456789-_"@;
            let group = three_bytes(bytes, k / 4 * 3);
            &&& alphabet.len() == 64
            &&& k % 4 == 0 ==> encode(bytes)[k] == alphabet[group / 262144 % 64]
            &&& k % 4 == 1 ==> encode(bytes)[k] == alphabet[group / 4096 % 64]
            &&& k % 4 == 2 ==> encode(bytes)[k] == alphabet[group / 64 % 64]
            &&& k % 4 == 3 ==> encode(bytes)[k] == alphabet[group % 64]
        }),
    decreases bytes.len(),
{
    if k < 4 {
        lemma_first_characters(bytes, k);
    } else {
        let rest = bytes.skip(3);
        characters_hold_six_bits(bytes);
        assert(encode(rest)[k - 4] == encode(bytes)[k]);
        three_bytes_make_four_characters(rest, k - 4);
        assert(three_bytes(rest, (k - 4) / 4 * 3) == three_bytes(bytes, k / 4 * 3));
    }
}

/// Nothing but the bytes themselves counts.
pub proof fn bytes_are_what_counts(bytes: Base64)
    ensures
        bytes@ == bytes.0@,
{
}

} // verus!
