//! Hexadecimal text for byte strings, as the shared secret is configured,
//! and the choice of the address under which this node is announced.
use vstd::prelude::*;
use crate::err::Error;
use crate::text::{chars_of, lowercase, lowercase_of, string_of};

verus! {

/// The lowercase hexadecimal digit for a value below 16.
pub open spec fn hex_digit(n: u8) -> char {
    if n < 10 {
        (48 + n) as char
    } else {
        (87 + n) as char
    }
}

/// Two digits for every byte, the high half first.
pub open spec fn hex_text(bytes: Seq<u8>) -> Seq<char> {
    Seq::new(
        2 * bytes.len(),
        |i: int|
            if i % 2 == 0 {
                hex_digit(bytes[i / 2] / 16)
            } else {
                hex_digit(bytes[i / 2] % 16)
            },
    )
}

/// The value that a character stands for as a hexadecimal digit. `'0'..='9'`
/// count 0 to 9, and `'a'..='f'` count 10 to 15. Any other character counts
/// by its distance from `'a'`, plus ten, reduced to a byte.
pub open spec fn nibble_of(c: char) -> u8 {
    if '0' <= c && c <= '9' {
        (c as int - 48) as u8
    } else {
        ((c as int + 169) % 256) as u8
    }
}

/// The byte made of a high and a low digit value: the high value moved up by
/// four bits, with the low value laid over it. For values below 16 that is
/// sixteen times the high value plus the low one.
pub open spec fn pair_byte(high: u8, low: u8) -> u8 {
    (high << 4) | low
}

/// One byte for every two characters; a last character without a partner
/// gives a byte of its own, holding its digit value.
pub open spec fn hex_bytes(s: Seq<char>) -> Seq<u8> {
    Seq::new(
        ((s.len() + 1) / 2) as nat,
        |i: int|
            if 2 * i + 1 < s.len() {
                pair_byte(nibble_of(s[2 * i]), nibble_of(s[2 * i + 1]))
            } else {
                nibble_of(s[2 * i])
            },
    )
}

fn digit_char(n: u8) -> (c: char)
    requires
        n < 16,
    ensures
        c == hex_digit(n),
{
    if n < 10 {
        (48 + n) as char
    } else {
        (87 + n) as char
    }
}

fn nibble(c: char) -> (v: u8)
    ensures
        v == nibble_of(c),
{
    let d: u32 = c as u32;
    if 48 <= d && d <= 57 {
        (d - 48) as u8
    } else {
        ((d + 169) % 256) as u8
    }
}

/// The bytes as lowercase hexadecimal text.
pub fn byte_v2hex(byte_v: &[u8]) -> (hex: String)
    ensures
        hex@ == hex_text(byte_v@),
{
    let mut out: Vec<char> = Vec::new();
    let mut i: usize = 0;
    while i < byte_v.len()
        invariant
            i <= byte_v.len(),
            out@ == hex_text(byte_v@.take(i as int)),
        decreases byte_v.len() - i,
    {
        let b: u8 = byte_v[i];
        out.push(digit_char(b / 16));
        out.push(digit_char(b % 16));
        i = i + 1;
        assert(out@ =~= hex_text(byte_v@.take(i as int)));
    }
    assert(byte_v@.take(i as int) =~= byte_v@);
    string_of(&out)
}

/// The bytes that hexadecimal text stands for, read as it is written.
pub fn hex_decode(s: &str) -> (byte_v: Vec<u8>)
    ensures
        byte_v@ == hex_bytes(s@),
{
    let chars = chars_of(s);
    let mut out: Vec<u8> = Vec::new();
    let mut i: usize = 0;
    while i < chars.len()
        invariant
            chars@ == s@,
            i <= chars.len(),
            i % 2 == 0 || i == chars.len(),
            out@ == hex_bytes(chars@.take(i as int)),
        decreases chars.len() - i,
    {
        let high: u8 = nibble(chars[i]);
        if i + 1 < chars.len() {
            let low: u8 = nibble(chars[i + 1]);
            out.push((high << 4) | low);
            i = i + 2;
        } else {
            out.push(high);
            i = i + 1;
        }
        assert(out@ =~= hex_bytes(chars@.take(i as int)));
    }
    assert(chars@.take(i as int) =~= chars@);
    out
}

/// The bytes that hexadecimal text stands for, upper and lower case alike.
pub fn hex2byte_v(s: &str) -> (byte_v: Vec<u8>)
    ensures
        byte_v@ == hex_bytes(lowercase_of(s@)),
{
    let lower = lowercase(s);
    hex_decode(lower.as_str())
}

/// A digit written for a value below 16 is read back as that value.
pub proof fn lemma_digit_round_trip(n: u8)
    requires
        n < 16,
    ensures
        nibble_of(hex_digit(n)) == n,
{
}

/// Reading back the text written for a byte string gives the byte string.
pub proof fn lemma_hex_round_trip(bytes: Seq<u8>)
    ensures
        hex_bytes(hex_text(bytes)) == bytes,
{
    let text = hex_text(bytes);
    assert forall|i: int| 0 <= i < bytes.len() implies #[trigger] hex_bytes(text)[i] == bytes[i] by {
        let b: u8 = bytes[i];
        let high: u8 = b / 16;
        let low: u8 = b % 16;
        assert(text[2 * i] == hex_digit(high));
        assert(text[2 * i + 1] == hex_digit(low));
        lemma_digit_round_trip(high);
        lemma_digit_round_trip(low);
        assert(((high << 4) | low) == b) by (bit_vector)
            requires
                high == b / 16,
                low == b % 16,
        ;
    }
    assert(hex_bytes(text) =~= bytes);
}

/// An address of a network interface of this machine.
#[derive(Debug)]
pub struct InterfaceAddress {
    pub is_ipv6: bool,
    pub text: String,
}

/// Whether an address can be announced: it is an IPv6 address, and its text
/// begins neither with `f` nor with a colon, as local addresses do.
pub open spec fn is_global(a: InterfaceAddress) -> bool {
    a.is_ipv6 && !(a.text@.len() > 0 && (a.text@[0] == 'f' || a.text@[0] == ':'))
}

/// The first address that can be announced, in the order of the interfaces.
pub fn get_global_ipv6(addresses: &Vec<InterfaceAddress>) -> (res: Result<String, Error>)
    ensures
        match res {
            Ok(ip) => exists|i: int|
                0 <= i < addresses@.len() && is_global(#[trigger] addresses@[i]) && ip@ == addresses@[i].text@
                    && forall|j: int| 0 <= j < i ==> !is_global(#[trigger] addresses@[j]),
            Err(e) => e is NotFound && forall|i: int|
                0 <= i < addresses@.len() ==> !is_global(#[trigger] addresses@[i]),
        },
{
    let mut i: usize = 0;
    while i < addresses.len()
        invariant
            i <= addresses@.len(),
            forall|j: int| 0 <= j < i ==> !is_global(#[trigger] addresses@[j]),
        decreases addresses@.len() - i,
    {
        if addresses[i].is_ipv6 {
            let chars = chars_of(addresses[i].text.as_str());
            if !(chars.len() > 0 && (chars[0] == 'f' || chars[0] == ':')) {
                assert(is_global(addresses@[i as int]));
                return Ok(addresses[i].text.clone());
            }
        }
        i = i + 1;
    }
    Err(Error::NotFound(String::from_str("Faild to get a global ipv6")))
}

} // verus!
