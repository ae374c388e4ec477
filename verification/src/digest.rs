//! Hashing and text encodings of binary data.

use base64::Engine;
use sha2::Digest;
use vstd::prelude::*;

verus! {

/// The SHA-256 digest of a byte string.
pub uninterp spec fn sha256(data: Seq<u8>) -> Seq<u8>;

/// Calls `sha2::Sha256::digest`. Claims that the digest depends on the bytes
/// alone; that it is 32 bytes long is in its type.
#[verifier::external_body]
pub(crate) fn sha256_digest(data: &[u8]) -> (out: [u8; 32])
    ensures
        out@ == sha256(data@),
{
    sha2::Sha256::digest(data).into()
}

/// The lowercase hexadecimal digit for a value below sixteen.
pub open spec fn hex_digit(value: nat) -> char {
    if value < 10 {
        (48 + value) as char
    } else {
        (87 + value) as char
    }
}

/// Two lowercase hexadecimal digits per byte, high half first.
pub open spec fn hex_text(data: Seq<u8>) -> Seq<char> {
    Seq::new(
        2 * data.len(),
        |i: int|
            if i % 2 == 0 {
                hex_digit(data[i / 2] as nat / 16)
            } else {
                hex_digit(data[i / 2] as nat % 16)
            },
    )
}

/// Calls `hex::encode`, which writes each byte as two lowercase digits.
#[verifier::external_body]
pub(crate) fn hex_encode(data: &[u8]) -> (out: String)
    ensures
        out@ == hex_text(data@),
{
    hex::encode(data)
}

/// The character of the standard base64 alphabet for a value below 64.
pub open spec fn base64_char(value: nat) -> char {
    if value < 26 {
        (65 + value) as char
    } else if value < 52 {
        (71 + value) as char
    } else if value < 62 {
        (value - 4) as char
    } else if value == 62 {
        '+'
    } else {
        '/'
    }
}

/// A byte of the data, or zero beyond its end.
pub open spec fn byte_or_zero(data: Seq<u8>, i: int) -> nat {
    if i < data.len() {
        data[i] as nat
    } else {
        0
    }
}

/// Standard padded base64: every three bytes, the last group filled up with
/// zero bits, give four characters; characters that would stand for no byte at
/// all are `=`.
pub open spec fn base64_text(data: Seq<u8>) -> Seq<char> {
    Seq::new(
        4 * ((data.len() + 2) / 3),
        |i: int|
            {
                let group = 3 * (i / 4);
                let bits = 65536 * byte_or_zero(data, group) + 256 * byte_or_zero(data, group + 1)
                    + byte_or_zero(data, group + 2);
                if i % 4 == 0 {
                    base64_char(bits / 262144)
                } else if i % 4 == 1 {
                    base64_char((bits / 4096) % 64)
                } else if i % 4 == 2 {
                    if group + 1 < data.len() {
                        base64_char((bits / 64) % 64)
                    } else {
                        '='
                    }
                } else {
                    if group + 2 < data.len() {
                        base64_char(bits % 64)
                    } else {
                        '='
                    }
                }
            },
    )
}

/// Calls `base64`'s `Engine::encode` with the `STANDARD` engine, which writes
/// the padded standard alphabet. It panics where the output's length would not
/// fit a machine word.
#[verifier::external_body]
pub(crate) fn base64_encode(data: &[u8]) -> (out: String)
    requires
        4 * ((data@.len() + 2) / 3) <= usize::MAX,
    ensures
        out@ == base64_text(data@),
{
    base64::engine::general_purpose::STANDARD.encode(data)
}

/// What a hexadecimal digit of either case stands for.
pub open spec fn hex_value(c: char) -> Option<nat> {
    if '0' <= c <= '9' {
        Some((c as nat - 48) as nat)
    } else if 'a' <= c <= 'f' {
        Some((c as nat - 87) as nat)
    } else if 'A' <= c <= 'F' {
        Some((c as nat - 55) as nat)
    } else {
        None
    }
}

/// Whether a text is an even number of hexadecimal digits.
pub open spec fn is_hex(text: Seq<char>) -> bool {
    text.len() % 2 == 0 && forall|i: int|
        0 <= i < text.len() ==> hex_value(#[trigger] text[i]) is Some
}

/// The bytes that hexadecimal text stands for.
pub open spec fn hex_bytes(text: Seq<char>) -> Seq<u8> {
    Seq::new(
        text.len() / 2,
        |i: int| (16 * hex_value(text[2 * i])->0 + hex_value(text[2 * i + 1])->0) as u8,
    )
}

/// What is said of a text that is not hexadecimal.
pub uninterp spec fn hex_fault(text: Seq<char>) -> Seq<char>;

/// Calls `hex::decode`, which accepts an even number of digits of either case
/// and nothing else, and `to_string` on its error.
#[verifier::external_body]
pub(crate) fn hex_decode(text: &str) -> (out: Result<Vec<u8>, String>)
    ensures
        match out {
            Ok(bytes) => is_hex(text@) && bytes@ == hex_bytes(text@),
            Err(message) => !is_hex(text@) && message@ == hex_fault(text@),
        },
{
    hex::decode(text).map_err(|error| error.to_string())
}

/// Lowercase text of bytes decodes to the bytes.
pub proof fn law_hex_round_trip(data: Seq<u8>)
    ensures
        is_hex(hex_text(data)),
        hex_bytes(hex_text(data)) == data,
{
    let text = hex_text(data);
    assert forall|i: int| 0 <= i < text.len() implies hex_value(#[trigger] text[i]) is Some by {
        assert(data[i / 2] as nat / 16 < 16);
    }
    assert forall|i: int| 0 <= i < data.len() implies hex_bytes(text)[i] == data[i] by {
        let b = data[i] as nat;
        assert((2 * i) / 2 == i && (2 * i + 1) / 2 == i);
        assert(text[2 * i] == hex_digit(b / 16));
        assert(text[2 * i + 1] == hex_digit(b % 16));
        assert(hex_value(hex_digit(b / 16)) == Some(b / 16));
        assert(hex_value(hex_digit(b % 16)) == Some(b % 16));
    }
    assert(hex_bytes(text) =~= data);
}

/// The lowercase hexadecimal SHA-256 digest of `data`.
pub fn sha256_hex(data: &[u8]) -> (out: String)
    ensures
        out@ == hex_text(sha256(data@)),
{
    let digest = sha256_digest(data);
    hex_encode(digest.as_slice())
}

/// Every byte is written as two digits, the higher half first.
pub proof fn law_hex_digits(data: Seq<u8>, i: int)
    requires
        0 <= i < data.len(),
    ensures
        hex_text(data).len() == 2 * data.len(),
        hex_text(data)[2 * i] == "0123456789abcdef"@[data[i] as int / 16],
        hex_text(data)[2 * i + 1] == "0123456789abcdef"@[data[i] as int % 16],
{
    reveal_strlit("0123456789abcdef");
    assert((2 * i) / 2 == i && (2 * i) % 2 == 0);
    assert((2 * i + 1) / 2 == i && (2 * i + 1) % 2 == 1);
    lemma_hex_digit(data[i] as nat / 16);
    lemma_hex_digit(data[i] as nat % 16);
}

proof fn lemma_hex_digit(value: nat)
    requires
        value < 16,
    ensures
        hex_digit(value) == "0123456789abcdef"@[value as int],
{
    reveal_strlit("0123456789abcdef");
}

/// Three bytes are written as four characters of the alphabet, six bits each, the
/// highest first.
pub proof fn law_base64_groups(data: Seq<u8>, g: int)
    requires
        0 <= g,
        3 * g + 3 <= data.len(),
    ensures
        ({
            let text = base64_text(data);
            let letters = "ABCDEFGHIJKLMNOPQRSTUVWXYZabcdefghijklmnopqrstuvwxyz0123456789+/"@;
            let bits = 65536 * data[3 * g] + 256 * data[3 * g + 1] + data[3 * g + 2];
            &&& text[4 * g] == letters[bits / 262144]
            &&& text[4 * g + 1] == letters[bits / 4096 % 64]
            &&& text[4 * g + 2] == letters[bits / 64 % 64]
            &&& text[4 * g + 3] == letters[bits % 64]
        }),
{
    let text = base64_text(data);
    let bits = 65536 * data[3 * g] + 256 * data[3 * g + 1] + data[3 * g + 2];
    assert((4 * g) / 4 == g && (4 * g) % 4 == 0);
    assert((4 * g + 1) / 4 == g && (4 * g + 1) % 4 == 1);
    assert((4 * g + 2) / 4 == g && (4 * g + 2) % 4 == 2);
    assert((4 * g + 3) / 4 == g && (4 * g + 3) % 4 == 3);
    assert(0 <= bits < 16777216);
    lemma_base64_letter((bits / 262144) as nat);
    lemma_base64_letter((bits / 4096 % 64) as nat);
    lemma_base64_letter((bits / 64 % 64) as nat);
    lemma_base64_letter((bits % 64) as nat);
}

proof fn lemma_base64_letter(value: nat)
    requires
        value < 64,
    ensures
        base64_char(value)
            == "ABCDEFGHIJKLMNOPQRSTUVWXYZabcdefghijklmnopqrstuvwxyz0123456789+/"@[value as int],
{
    reveal_strlit("ABCDEFGHIJKLMNOPQRSTUVWXYZabcdefghijklmnopqrstuvwxyz0123456789+/");
}

/// What is left behind the last three bytes is written with `=` in place of what is
/// missing, and the text is a whole number of fours.
pub proof fn law_base64_ends_in_padding(data: Seq<u8>)
    ensures
        ({
            let text = base64_text(data);
            let whole = 4 * (data.len() as int / 3);
            let letters = "ABCDEFGHIJKLMNOPQRSTUVWXYZabcdefghijklmnopqrstuvwxyz0123456789+/"@;
            if data.len() % 3 == 0 {
                text.len() == whole
            } else if data.len() % 3 == 1 {
                let last = data[data.len() - 1] as int;
                &&& text.len() == whole + 4
                &&& text[whole] == letters[last / 4]
                &&& text[whole + 1] == letters[last % 4 * 16]
                &&& text[whole + 2] == '='
                &&& text[whole + 3] == '='
            } else {
                let a = data[data.len() - 2] as int;
                let b = data[data.len() - 1] as int;
                &&& text.len() == whole + 4
                &&& text[whole] == letters[a / 4]
                &&& text[whole + 1] == letters[a % 4 * 16 + b / 16]
                &&& text[whole + 2] == letters[b % 16 * 4]
                &&& text[whole + 3] == '='
            }
        }),
{
    let g = data.len() as int / 3;
    let n = data.len() as int;
    assert((4 * g) / 4 == g && (4 * g) % 4 == 0);
    assert((4 * g + 1) / 4 == g && (4 * g + 1) % 4 == 1);
    assert((4 * g + 2) / 4 == g && (4 * g + 2) % 4 == 2);
    assert((4 * g + 3) / 4 == g && (4 * g + 3) % 4 == 3);
    if n % 3 == 1 {
        let last = data[n - 1] as int;
        lemma_base64_letter((last / 4) as nat);
        lemma_base64_letter((last % 4 * 16) as nat);
        assert(65536 * last / 262144 == last / 4);
        assert((65536 * last / 4096) % 64 == last % 4 * 16);
    } else if n % 3 == 2 {
        let a = data[n - 2] as int;
        let b = data[n - 1] as int;
        lemma_base64_letter((a / 4) as nat);
        lemma_base64_letter((a % 4 * 16 + b / 16) as nat);
        lemma_base64_letter((b % 16 * 4) as nat);
        assert((65536 * a + 256 * b) / 262144 == a / 4);
        assert(((65536 * a + 256 * b) / 4096) % 64 == a % 4 * 16 + b / 16);
        assert(((65536 * a + 256 * b) / 64) % 64 == b % 16 * 4);
    }
}

/// Hexadecimal digits are read alike in capitals and in small letters; nothing else is
/// a digit.
pub proof fn law_hex_values(c: char, value: nat)
    requires
        value < 16,
    ensures
        hex_value(c) == Some(value) <==> c == "0123456789abcdef"@[value as int] || c
            == "0123456789ABCDEF"@[value as int],
{
    reveal_strlit("0123456789abcdef");
    reveal_strlit("0123456789ABCDEF");
}

} // verus!
