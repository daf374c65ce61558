//! Byte payloads as hex strings: compact enough, trivially portable.

use crate::text::{digit_value, digits_value, number, number_in, parse_number};
use vstd::prelude::*;
use vstd::string::*;
use vstd::utf8::{encode_utf8, is_ascii_chars};

verus! {

/// The lower-case hexadecimal digit of a number below 16.
pub open spec fn hex_digit(v: int) -> char {
    if v < 10 {
        (48 + v) as char
    } else {
        (87 + v) as char
    }
}

/// Two digits per byte.
pub open spec fn hex_of(data: Seq<u8>) -> Seq<char>
    decreases data.len(),
{
    if data.len() == 0 {
        Seq::empty()
    } else {
        hex_of(data.drop_last()).push(hex_digit(data.last() as int / 16)).push(
            hex_digit(data.last() as int % 16),
        )
    }
}

/// The byte that two characters spell.
pub open spec fn byte_of(a: u8, b: u8) -> Option<int> {
    number_in(seq![a as char, b as char], 16, false, 0, 255)
}

/// The bytes that the first `2 * n` bytes of a hex string spell, if they do.
pub open spec fn bytes_upto(b: Seq<u8>, n: int) -> Option<Seq<u8>>
    decreases n,
{
    if n <= 0 {
        Some(Seq::empty())
    } else {
        match (bytes_upto(b, n - 1), byte_of(b[2 * n - 2], b[2 * n - 1])) {
            (Some(before), Some(v)) => Some(before.push(v as u8)),
            _ => None,
        }
    }
}

/// The bytes that a hex string spells, or why it spells none.
pub open spec fn bytes_of(s: Seq<char>) -> Result<Seq<u8>, Seq<char>> {
    let b = encode_utf8(s);
    if b.len() % 2 != 0 {
        Err("odd-length hex string"@)
    } else {
        match bytes_upto(b, b.len() as int / 2) {
            Some(data) => Ok(data),
            None => Err("invalid digit found in string"@),
        }
    }
}

fn digit_of(v: u8) -> (r: char)
    requires
        v < 16,
    ensures
        r == hex_digit(v as int),
{
    if v < 10 {
        (48 + v) as char
    } else {
        (87 + v) as char
    }
}

/// Writes bytes as hexadecimal digits.
pub fn serialize(data: &[u8]) -> (r: String)
    ensures
        r@ == hex_of(data@),
{
    let mut out: String = String::new();
    let mut i: usize = 0;
    assert(out@ =~= Seq::<char>::empty());
    while i < data.len()
        invariant
            i <= data@.len(),
            out@ == hex_of(data@.take(i as int)),
        decreases data@.len() - i,
    {
        let b: u8 = data[i];
        out.push(digit_of(b / 16));
        out.push(digit_of(b % 16));
        assert(data@.take(i + 1).drop_last() =~= data@.take(i as int));
        i += 1;
    }
    assert(data@.take(i as int) =~= data@);
    out
}

/// Reads hexadecimal digits as bytes.
pub fn deserialize(s: &str) -> (r: Result<Vec<u8>, String>)
    ensures
        match r {
            Ok(data) => bytes_of(s@) == Ok::<Seq<u8>, Seq<char>>(data@),
            Err(e) => bytes_of(s@) == Err::<Seq<u8>, Seq<char>>(e@),
        },
{
    let b = s.as_bytes();
    let n: usize = b.len();
    if n % 2 != 0 {
        return Err("odd-length hex string".to_owned());
    }
    let mut out: Vec<u8> = Vec::new();
    let mut k: usize = 0;
    assert(out@ =~= Seq::<u8>::empty());
    while k < n / 2
        invariant
            k <= n / 2,
            n == b@.len(),
            b@ == encode_utf8(s@),
            n % 2 == 0,
            bytes_upto(b@, k as int) == Some(out@),
        decreases n / 2 - k,
    {
        let mut pair: Vec<char> = Vec::new();
        pair.push(b[2 * k] as char);
        pair.push(b[2 * k + 1] as char);
        assert(pair@ =~= seq![b@[2 * k] as char, b@[2 * k + 1] as char]);
        match parse_number(pair.as_slice(), 16, false, 0, 255) {
            Some(v) => {
                out.push(v as u8);
            },
            None => {
                assert(bytes_upto(b@, k + 1) is None);
                proof {
                    lemma_none_stays(b@, k + 1, n as int / 2);
                }
                return Err("invalid digit found in string".to_owned());
            },
        }
        k += 1;
    }
    Ok(out)
}

proof fn lemma_none_stays(b: Seq<u8>, i: int, n: int)
    requires
        0 <= i <= n,
        bytes_upto(b, i) is None,
    ensures
        bytes_upto(b, n) is None,
    decreases n - i,
{
    if i < n {
        lemma_none_stays(b, i, n - 1);
    }
}

proof fn lemma_hex_ascii(data: Seq<u8>)
    ensures
        hex_of(data).len() == 2 * data.len(),
        is_ascii_chars(hex_of(data)),
        forall|i: int|
            0 <= i < data.len() ==> hex_of(data)[2 * i] == hex_digit(#[trigger] data[i] as int / 16)
                && hex_of(data)[2 * i + 1] == hex_digit(data[i] as int % 16),
    decreases data.len(),
{
    if data.len() > 0 {
        lemma_hex_ascii(data.drop_last());
        let before = hex_of(data.drop_last());
        let all = hex_of(data);
        assert forall|i: int| 0 <= i < all.len() implies (0 <= #[trigger] all[i] as int && (
        all[i] as int) < 128) by {
            if i < before.len() {
                assert(all[i] == before[i]);
            }
        }
        assert forall|i: int| 0 <= i < data.len() implies all[2 * i] == hex_digit(
            #[trigger] data[i] as int / 16,
        ) && all[2 * i + 1] == hex_digit(data[i] as int % 16) by {
            if i < data.len() - 1 {
                assert(data.drop_last()[i] == data[i]);
                assert(all[2 * i] == before[2 * i]);
                assert(all[2 * i + 1] == before[2 * i + 1]);
            }
        }
    }
}

pub proof fn lemma_byte_back(v: u8)
    ensures
        byte_of(hex_digit(v as int / 16) as u8, hex_digit(v as int % 16) as u8) == Some(v as int),
{
    let a = hex_digit(v as int / 16);
    let b = hex_digit(v as int % 16);
    let s = seq![(a as u8) as char, (b as u8) as char];
    assert((a as u8) as char == a);
    assert((b as u8) as char == b);
    assert(s[0] == a && s[1] == b);
    assert(digit_value(a, 16) == Some(v as int / 16));
    assert(digit_value(b, 16) == Some(v as int % 16));
    assert(s.drop_last() =~= seq![a]);
    assert(digits_value(seq![a], 16) == Some(v as int / 16));
    assert(digits_value(s, 16) == Some(v as int));
    assert(number(s, 16, false) == Some(v as int));
}

/// What was written reads back.
pub proof fn law_hex_reads_back(data: Seq<u8>)
    ensures
        bytes_of(hex_of(data)) == Ok::<Seq<u8>, Seq<char>>(data),
{
    let s = hex_of(data);
    lemma_hex_ascii(data);
    vstd::utf8::is_ascii_chars_encode_utf8(s);
    let b = encode_utf8(s);
    lemma_bytes_back(data, b, data.len() as int);
    assert(data.take(data.len() as int) =~= data);
}

proof fn lemma_bytes_back(data: Seq<u8>, b: Seq<u8>, n: int)
    requires
        0 <= n <= data.len(),
        b.len() == 2 * data.len(),
        forall|i: int| 0 <= i < b.len() ==> #[trigger] b[i] == hex_of(data)[i] as u8,
    ensures
        bytes_upto(b, n) == Some(data.take(n)),
    decreases n,
{
    if n > 0 {
        lemma_bytes_back(data, b, n - 1);
        lemma_hex_ascii(data);
        let v = data[n - 1];
        assert(b[2 * (n - 1)] == hex_digit(v as int / 16) as u8);
        assert(b[2 * (n - 1) + 1] == hex_digit(v as int % 16) as u8);
        lemma_byte_back(v);
        assert(data.take(n) =~= data.take(n - 1).push(v));
    } else {
        assert(data.take(0) =~= Seq::<u8>::empty());
    }
}

} // verus!
