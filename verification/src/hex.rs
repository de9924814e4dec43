//! A hexadecimal decoder: pairs of hex digits to bytes. Test fixtures spell
//! wire buffers this way.

use vstd::prelude::*;

verus! {

/// The value of one hex digit, or nothing for any other character.
pub open spec fn spec_hex_digit(c: char) -> Option<u8> {
    if '0' <= c <= '9' {
        Some(((c as u32) - 48) as u8)
    } else if 'a' <= c <= 'f' {
        Some(((c as u32) - 97 + 10) as u8)
    } else if 'A' <= c <= 'F' {
        Some(((c as u32) - 65 + 10) as u8)
    } else {
        None
    }
}

/// Whether every character taking part in a full pair is a hex digit; a
/// trailing unpaired character is ignored.
pub open spec fn valid_hex_pairs(s: Seq<char>) -> bool {
    forall|i: int| 0 <= i < 2 * (s.len() / 2) ==> spec_hex_digit(#[trigger] s[i]) is Some
}

/// The byte each full pair of hex digits spells, high digit first.
pub open spec fn spec_hex_bytes(s: Seq<char>) -> Seq<u8>
    recommends
        valid_hex_pairs(s),
{
    Seq::new(
        s.len() / 2,
        |i: int| (spec_hex_digit(s[2 * i]).unwrap() * 16 + spec_hex_digit(
            s[2 * i + 1],
        ).unwrap()) as u8,
    )
}

/// The value of one hex digit, or nothing for any other character.
pub fn hex_digit(c: char) -> (r: Option<u8>)
    ensures
        r == spec_hex_digit(c),
{
    if c >= '0' && c <= '9' {
        Some((c as u8) - 48)
    } else if c >= 'a' && c <= 'f' {
        Some((c as u8) - 97 + 10)
    } else if c >= 'A' && c <= 'F' {
        Some((c as u8) - 65 + 10)
    } else {
        None
    }
}

/// Decodes a string of hex digit pairs into the bytes they spell, or nothing
/// if a character taking part in a full pair is no hex digit. A trailing
/// unpaired character is ignored.
#[verifier::loop_isolation(false)]
pub fn parse(hex: &str) -> (r: Option<Vec<u8>>)
    ensures
        valid_hex_pairs(hex@) ==> (r matches Some(v) && v@ == spec_hex_bytes(hex@)),
        !valid_hex_pairs(hex@) ==> r is None,
{
    let n = hex.unicode_len();
    let pairs = n / 2;
    let mut out: Vec<u8> = Vec::new();
    let mut i: usize = 0;
    while i < pairs
        invariant
            i <= pairs,
            pairs == hex@.len() / 2,
            n == hex@.len(),
            out@ == spec_hex_bytes(hex@).take(i as int),
            forall|j: int| 0 <= j < 2 * i ==> spec_hex_digit(#[trigger] hex@[j]) is Some,
        decreases pairs - i,
    {
        let hi = match hex_digit(hex.get_char(2 * i)) {
            Some(v) => v,
            Option::None => {
                return Option::None;
            },
        };
        let lo = match hex_digit(hex.get_char(2 * i + 1)) {
            Some(v) => v,
            Option::None => {
                return Option::None;
            },
        };
        out.push(hi * 16 + lo);
        assert(out@ =~= spec_hex_bytes(hex@).take(i as int + 1));
        i += 1;
    }
    assert(spec_hex_bytes(hex@).take(pairs as int) =~= spec_hex_bytes(hex@));
    Some(out)
}

} // verus!
