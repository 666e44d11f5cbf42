//! Versions of a retained message, and their textual ids.

use vstd::prelude::*;
use vstd::utf8::encode_utf8;
use crate::text::{
    ascii_chars, ascii_string, find_byte, find_first, hex_fixed, lemma_ascii_utf8,
    lemma_find_first_at, lemma_hex_fixed, lemma_radix_text, lower_digits, parse_uint, radix_text,
    spec_parse_uint, digits_value, write_hex_fixed, write_uint,
};

verus! {

/// A version of a retained slot: the generation it was created with, and the
/// sequence number of the write within it.
#[derive(Debug, Clone, Copy, PartialEq, Eq, Structural, Default)]
pub struct Version {
    pub generation: u64,
    pub seq: u64,
}

/// The text is not a version id.
#[derive(Debug, Clone, Copy)]
pub struct VersionParseError;

/// The id of a version: the generation as 16 lower-case hexadecimal digits, a
/// dash, then the sequence number in decimal.
pub open spec fn id_bytes(generation: u64, seq: u64) -> Seq<u8> {
    hex_fixed(generation as nat, 16) + seq![45u8] + radix_text(seq as nat, 10)
}

/// What a version id reads as: hexadecimal before the first dash, decimal
/// after it, each fitting in a `u64`.
pub open spec fn spec_parse_version(b: Seq<u8>) -> Option<Version> {
    match find_first(b, 45) {
        None => None,
        Some(pos) => match (
            spec_parse_uint(b.subrange(0, pos), 16),
            spec_parse_uint(b.subrange(pos + 1, b.len() as int), 10),
        ) {
            (Some(g), Some(s)) => if g <= u64::MAX && s <= u64::MAX {
                Some(Version { generation: g as u64, seq: s as u64 })
            } else {
                None
            },
            _ => None,
        },
    }
}

impl Version {
    /// The id of this version.
    pub fn as_id(&self) -> (r: String)
        ensures
            r@ == ascii_chars(id_bytes(self.generation, self.seq)),
    {
        let mut b: Vec<u8> = Vec::new();
        write_hex_fixed(&mut b, self.generation, 16);
        b.push(45);
        write_uint(&mut b, self.seq, 10);
        proof {
            lemma_id_shape(self.generation, self.seq);
            assert(b@ =~= id_bytes(self.generation, self.seq));
        }
        ascii_string(b)
    }

    /// The id of this version, as `as_id` gives it.
    pub fn to_id(&self) -> (r: String)
        ensures
            r@ == ascii_chars(id_bytes(self.generation, self.seq)),
    {
        self.as_id()
    }

    /// Reads a version id.
    pub fn parse(s: &str) -> (r: Result<Version, VersionParseError>)
        ensures
            match spec_parse_version(encode_utf8(s@)) {
                Some(v) => r == Ok::<Version, VersionParseError>(v),
                None => r is Err,
            },
    {
        let b = s.as_bytes();
        assert(b@ == encode_utf8(s@));
        let n = b.len();
        let pos = match find_byte(b, 45) {
            Some(p) => p,
            None => return Err(VersionParseError),
        };
        assert(pos < n);
        let gb = vstd::slice::slice_subrange(b, 0, pos);
        let sb = vstd::slice::slice_subrange(b, pos + 1, n);
        let generation = match parse_uint(gb, 16) {
            Some(g) => g,
            None => return Err(VersionParseError),
        };
        let seq = match parse_uint(sb, 10) {
            Some(x) => x,
            None => return Err(VersionParseError),
        };
        Ok(Version { generation, seq })
    }
}

proof fn lemma_pow16() 
    ensures
        vstd::arithmetic::power::pow(16, 16) == 0x1_0000_0000_0000_0000int,
{
    reveal_with_fuel(vstd::arithmetic::power::pow, 17);
}

/// Shape of a version id: 16 hexadecimal digits, a dash, decimal digits.
pub proof fn lemma_id_shape(generation: u64, seq: u64)
    ensures
        id_bytes(generation, seq).len() >= 18,
        lower_digits(id_bytes(generation, seq).subrange(0, 16), 16),
        id_bytes(generation, seq)[16] == 45,
        lower_digits(
            id_bytes(generation, seq).subrange(17, id_bytes(generation, seq).len() as int),
            10,
        ),
        forall|i: int| 0 <= i < id_bytes(generation, seq).len() ==> #[trigger] id_bytes(generation, seq)[i] < 128,
{
    let h = hex_fixed(generation as nat, 16);
    let d = radix_text(seq as nat, 10);
    let b = id_bytes(generation, seq);
    lemma_hex_fixed(generation as nat, 16);
    lemma_radix_text(seq as nat, 10);
    assert(b.subrange(0, 16) =~= h);
    assert(b.subrange(17, b.len() as int) =~= d);
    assert forall|i: int| 0 <= i < b.len() implies #[trigger] b[i] < 128 by {
        if i < 16 {
            assert(b[i] == h[i]);
        } else if i > 16 {
            assert(b[i] == d[i - 17]);
        }
    }
}

/// Reading the id of a version gives the version back; the id is 16
/// lower-case hexadecimal digits, a dash and at least one decimal digit.
pub proof fn lemma_version_id_parse(v: Version)
    ensures
        spec_parse_version(id_bytes(v.generation, v.seq)) == Some(v),
        spec_parse_version(encode_utf8_of_id(v)) == Some(v),
{
    let h = hex_fixed(v.generation as nat, 16);
    let d = radix_text(v.seq as nat, 10);
    let b = id_bytes(v.generation, v.seq);
    lemma_hex_fixed(v.generation as nat, 16);
    lemma_radix_text(v.seq as nat, 10);
    lemma_id_shape(v.generation, v.seq);
    lemma_pow16();
    assert(b.subrange(0, 16) =~= h);
    assert(b.subrange(17, b.len() as int) =~= d);
    assert forall|i: int| 0 <= i < 16 implies b[i] != 45 by {
        assert(b[i] == h[i]);
    }
    lemma_find_first_at(b, 45, 16);
    assert(h[0] != 43);
    assert(d[0] != 43);
    assert(vstd::arithmetic::power::pow(16, 16) == 0x1_0000_0000_0000_0000int);
    vstd::arithmetic::div_mod::lemma_small_mod(v.generation as nat, 0x1_0000_0000_0000_0000nat);
    assert(digits_value(h, 16) == Some(v.generation as nat));
    assert(spec_parse_uint(h, 16) == Some(v.generation as nat));
    assert(spec_parse_uint(d, 10) == Some(v.seq as nat));
    assert(spec_parse_version(b) == Some(v));
    lemma_ascii_utf8(b);
}

/// The UTF-8 bytes of the id of a version.
pub open spec fn encode_utf8_of_id(v: Version) -> Seq<u8> {
    encode_utf8(ascii_chars(id_bytes(v.generation, v.seq)))
}

} // verus!
