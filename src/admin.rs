//! Signing keys for bearer tokens: a value drawn at random, and a short id
//! derived from it.

use vstd::prelude::*;
use sha1::Digest;
use crate::text::{ascii_chars, ascii_string, hex_fixed, lemma_hex_fixed, write_hex_fixed};

verus! {

/// The SHA-1 digest of some bytes.
pub uninterp spec fn sha1_of(b: Seq<u8>) -> Seq<u8>;

/// Relies on `sha1::Sha1::digest`: the SHA-1 digest of the bytes, 20 bytes
/// long.
#[verifier::external_body]
fn sha1_digest(b: &[u8]) -> (r: Vec<u8>)
    ensures
        r@ == sha1_of(b@),
        r@.len() == 20,
{
    sha1::Sha1::digest(b).to_vec()
}

/// Two lower-case hexadecimal digits for each byte.
pub open spec fn hex_of(b: Seq<u8>) -> Seq<u8>
    decreases b.len(),
{
    if b.len() == 0 {
        Seq::empty()
    } else {
        hex_of(b.drop_last()) + hex_fixed(b.last() as nat, 2)
    }
}

fn hex_string(b: &[u8]) -> (r: String)
    ensures
        r@ == ascii_chars(hex_of(b@)),
{
    let mut out: Vec<u8> = Vec::new();
    let mut i: usize = 0;
    while i < b.len()
        invariant
            i <= b@.len(),
            out@ == hex_of(b@.subrange(0, i as int)),
            forall|k: int| 0 <= k < out@.len() ==> #[trigger] out@[k] < 128,
        decreases b@.len() - i,
    {
        let ghost before = out@;
        write_hex_fixed(&mut out, b[i] as u64, 2);
        proof {
            lemma_hex_fixed(b@[i as int] as nat, 2);
            assert(b@.subrange(0, i + 1).drop_last() =~= b@.subrange(0, i as int));
            assert(b@.subrange(0, i + 1).last() == b@[i as int]);
            assert forall|k: int| 0 <= k < out@.len() implies #[trigger] out@[k] < 128 by {
                if k >= before.len() {
                    assert(out@[k] == hex_fixed(b@[i as int] as nat, 2)[k - before.len()]);
                }
            }
        }
        i = i + 1;
    }
    assert(b@.subrange(0, i as int) =~= b@);
    ascii_string(out)
}

/// A key from random bytes: its value is the SHA-1 of the bytes in
/// hexadecimal, its id the first four bytes of the SHA-1 of that value, in
/// hexadecimal.
pub fn key_from_random(random: &[u8]) -> (r: (String, String))
    ensures
        r.1@ == ascii_chars(hex_of(sha1_of(random@))),
        r.0@ == ascii_chars(hex_of(sha1_of(hex_of(sha1_of(random@))).subrange(0, 4))),
{
    let value = hex_string(sha1_digest(random).as_slice());
    let vb = value.as_str().as_bytes();
    proof {
        let h = hex_of(sha1_of(random@));
        lemma_hex_ascii(sha1_of(random@));
        crate::text::lemma_ascii_utf8(h);
        assert(vb@ == h);
    }
    let digest = sha1_digest(vb);
    let id = hex_string(vstd::slice::slice_subrange(digest.as_slice(), 0, 4));
    (id, value)
}

proof fn lemma_hex_ascii(b: Seq<u8>)
    ensures
        forall|k: int| 0 <= k < hex_of(b).len() ==> #[trigger] hex_of(b)[k] < 128,
    decreases b.len(),
{
    if b.len() > 0 {
        lemma_hex_ascii(b.drop_last());
        lemma_hex_fixed(b.last() as nat, 2);
        let p = hex_of(b.drop_last());
        let q = hex_fixed(b.last() as nat, 2);
        assert forall|k: int| 0 <= k < hex_of(b).len() implies #[trigger] hex_of(b)[k] < 128 by {
            if k < p.len() {
                assert(hex_of(b)[k] == p[k]);
            } else {
                assert(hex_of(b)[k] == q[k - p.len()]);
            }
        }
    }
}

} // verus!
