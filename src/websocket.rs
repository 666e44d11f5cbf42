//! Events of the websocket-over-HTTP envelope: `TYPE[ <hex length>]\r\n`,
//! then the content and `\r\n` when there is content.

use vstd::prelude::*;
use vstd::slice::{slice_subrange, slice_to_vec};
use vstd::utf8::*;
use crate::text::{
    ascii_chars, find_byte, find_first, lemma_ascii_utf8, lemma_find_first_at,
    lemma_find_first_none, lemma_radix_text, lower_digits, parse_uint, radix_text,
    spec_parse_uint, string_from_utf8, write_uint,
};

verus! {

/// One event: its type (`OPEN`, `CLOSE`, `TEXT`, `BINARY`, ...) and content.
#[derive(Clone)]
pub struct WsEvent {
    pub etype: String,
    pub content: Vec<u8>,
}

/// The bytes are not an event.
#[derive(Debug, Clone, Copy)]
pub struct ParseEventError;

/// What the first event of `src` reads as: its type, its content and its size
/// in bytes. The header line runs to the first `\r` and is UTF-8; it holds
/// the type alone, or the type, one space and the content length in
/// hexadecimal.
pub open spec fn spec_parse_ws(src: Seq<u8>) -> Option<(Seq<char>, Seq<u8>, nat)> {
    match find_first(src, 13) {
        None => None,
        Some(pos) => {
            let header = src.subrange(0, pos);
            if !valid_utf8(header) {
                None
            } else {
                match find_first(header, 32) {
                    None => if pos + 2 <= src.len() && src[pos + 1] == 10 {
                        Some((decode_utf8(header), Seq::empty(), (pos + 2) as nat))
                    } else {
                        None
                    },
                    Some(sp) => {
                        let lenf = header.subrange(sp + 1, pos);
                        let etb = header.subrange(0, sp);
                        if find_first(lenf, 32) is Some || !valid_utf8(etb) {
                            None
                        } else {
                            match spec_parse_uint(lenf, 16) {
                                None => None,
                                Some(clen) => {
                                    let size = pos + 2 + clen;
                                    if clen > usize::MAX || pos + 2 > src.len() || src[pos + 1]
                                        != 10 || size + 2 > src.len() || src[size] != 13 || src[size
                                        + 1] != 10 {
                                        None
                                    } else {
                                        Some(
                                            (
                                                decode_utf8(etb),
                                                src.subrange(pos + 2, size),
                                                (size + 2) as nat,
                                            ),
                                        )
                                    }
                                },
                            }
                        }
                    },
                }
            }
        },
    }
}

/// The bytes of an event.
pub open spec fn spec_ws_bytes(etype: Seq<char>, content: Seq<u8>) -> Seq<u8> {
    if content.len() == 0 {
        encode_utf8(etype) + seq![13u8, 10u8]
    } else {
        encode_utf8(etype) + seq![32u8] + radix_text(content.len(), 16) + seq![13u8, 10u8]
            + content + seq![13u8, 10u8]
    }
}

/// Reads the first event of `src`; returns it and its size in bytes.
pub fn parse_websocket_event(src: &[u8]) -> (r: Result<(WsEvent, usize), ParseEventError>)
    ensures
        match spec_parse_ws(src@) {
            None => r is Err,
            Some((et, c, n)) => r matches Ok((e, k)) && e.etype@ == et && e.content@ == c && k
                == n,
        },
{
    let pos = match find_byte(src, 13) {
        Some(p) => p,
        None => return Err(ParseEventError),
    };
    let header = slice_subrange(src, 0, pos);
    let header_text = match string_from_utf8(slice_to_vec(header)) {
        Some(s) => s,
        None => return Err(ParseEventError),
    };
    match find_byte(header, 32) {
        None => {
            if src.len() - pos < 2 || src[pos + 1] != 10 {
                return Err(ParseEventError);
            }
            Ok((WsEvent { etype: header_text, content: Vec::new() }, pos + 2))
        },
        Some(sp) => {
            let lenf = slice_subrange(header, sp + 1, pos);
            if find_byte(lenf, 32).is_some() {
                return Err(ParseEventError);
            }
            let etype = match string_from_utf8(slice_to_vec(slice_subrange(header, 0, sp))) {
                Some(s) => s,
                None => return Err(ParseEventError),
            };
            let clen = match parse_uint(lenf, 16) {
                Some(x) => x,
                None => return Err(ParseEventError),
            };
            if clen > usize::MAX as u64 {
                return Err(ParseEventError);
            }
            let clen = clen as usize;
            if src.len() - pos < 2 || src[pos + 1] != 10 {
                return Err(ParseEventError);
            }
            if clen > src.len() - (pos + 2) {
                return Err(ParseEventError);
            }
            let size = pos + 2 + clen;
            if src.len() - size < 2 || src[size] != 13 || src[size + 1] != 10 {
                return Err(ParseEventError);
            }
            let content = slice_to_vec(slice_subrange(src, pos + 2, size));
            Ok((WsEvent { etype, content }, size + 2))
        },
    }
}

/// Appends the bytes of an event: the length and the content only when there
/// is content.
pub fn write_websocket_event(dest: &mut Vec<u8>, e: &WsEvent)
    ensures
        final(dest)@ == old(dest)@ + spec_ws_bytes(e.etype@, e.content@),
{
    let tb = e.etype.as_str().as_bytes();
    let mut i: usize = 0;
    while i < tb.len()
        invariant
            i <= tb@.len(),
            dest@ == old(dest)@ + tb@.subrange(0, i as int),
        decreases tb@.len() - i,
    {
        dest.push(tb[i]);
        i = i + 1;
        assert(dest@ =~= old(dest)@ + tb@.subrange(0, i as int));
    }
    assert(tb@.subrange(0, i as int) =~= encode_utf8(e.etype@));
    if e.content.len() > 0 {
        dest.push(32);
        write_uint(dest, e.content.len() as u64, 16);
        dest.push(13);
        dest.push(10);
        let mut j: usize = 0;
        let ghost mid = dest@;
        while j < e.content.len()
            invariant
                j <= e.content@.len(),
                dest@ == mid + e.content@.subrange(0, j as int),
            decreases e.content@.len() - j,
        {
            dest.push(e.content[j]);
            j = j + 1;
            assert(dest@ =~= mid + e.content@.subrange(0, j as int));
        }
        assert(e.content@.subrange(0, j as int) =~= e.content@);
        dest.push(13);
        dest.push(10);
    } else {
        dest.push(13);
        dest.push(10);
    }
    assert(dest@ =~= old(dest)@ + spec_ws_bytes(e.etype@, e.content@));
}

/// Reading the bytes of an event, whatever bytes follow them, gives the event
/// back and stops at its end, whenever its type holds no carriage return and
/// no space.
pub proof fn lemma_ws_roundtrip(etype: Seq<char>, content: Seq<u8>, rest: Seq<u8>)
    requires
        forall|i: int|
            0 <= i < encode_utf8(etype).len() ==> #[trigger] encode_utf8(etype)[i] != 13
                && encode_utf8(etype)[i] != 32,
        content.len() <= usize::MAX,
    ensures
        spec_parse_ws(spec_ws_bytes(etype, content) + rest) == Some(
            (etype, content, spec_ws_bytes(etype, content).len()),
        ),
{
    let e = encode_utf8(etype);
    let w = spec_ws_bytes(etype, content);
    let b = w + rest;
    vstd::utf8::encode_utf8_valid_utf8(etype);
    vstd::utf8::encode_utf8_decode_utf8(etype);
    if content.len() == 0 {
        let pos = e.len() as int;
        assert forall|i: int| 0 <= i < pos implies b[i] != 13 by {
            assert(b[i] == e[i]);
        }
        lemma_find_first_at(b, 13, pos);
        assert(b.subrange(0, pos) =~= e);
        lemma_find_first_none(e, 32);
    } else {
        let h = radix_text(content.len(), 16);
        lemma_radix_text(content.len(), 16);
        let pos: int = e.len() + 1int + h.len();
        assert forall|i: int| 0 <= i < pos implies b[i] != 13 by {
            if i < e.len() {
                assert(b[i] == e[i]);
            } else if i > e.len() {
                assert(b[i] == h[i - e.len() - 1]);
            }
        }
        lemma_find_first_at(b, 13, pos);
        let header = b.subrange(0, pos);
        let tail = seq![32u8] + h;
        assert(header =~= e + tail);
        assert forall|i: int| 0 <= i < tail.len() implies #[trigger] tail[i] < 128 by {
            if i > 0 {
                assert(tail[i] == h[i - 1]);
            }
        }
        lemma_ascii_utf8(tail);
        vstd::utf8::valid_utf8_concat(e, tail);
        assert forall|i: int| 0 <= i < e.len() implies header[i] != 32 by {
            assert(header[i] == e[i]);
        }
        lemma_find_first_at(header, 32, e.len() as int);
        assert(header.subrange(e.len() + 1int, pos) =~= h);
        assert(header.subrange(0, e.len() as int) =~= e);
        assert forall|i: int| 0 <= i < h.len() implies h[i] != 32 by {
            assert(lower_digits(h, 16));
        }
        lemma_find_first_none(h, 32);
        assert(h[0] != 43) by {
            assert(lower_digits(h, 16));
        }
        assert(spec_parse_uint(h, 16) == Some(content.len()));
        let size: int = pos + 2int + content.len();
        assert(b[pos + 1] == 10);
        assert(b[size] == 13);
        assert(b[size + 1] == 10);
        assert(b.subrange(pos + 2, size) =~= content);
    }
}

proof fn lemma_scalar_free(c: char, b: u8)
    requires
        b < 128,
        c != b as char,
    ensures
        forall|j: int|
            0 <= j < encode_scalar(c as u32).len() ==> #[trigger] encode_scalar(c as u32)[j] != b,
{
    let x = c as u32;
    vstd::utf8::char_is_scalar(c);
    if has_width_1_encoding(x) {
        assert(leading_byte_width_1(x) == x as u8) by (bit_vector)
            requires
                x <= 0x7f,
        ;
        assert(x != b as u32);
    } else {
        assert forall|y: u32| #[trigger] last_continuation_byte(y) >= 128 by {
            assert(0x80u8 | (y & 0x3F) as u8 >= 128) by (bit_vector);
        }
        assert forall|y: u32| #[trigger] second_last_continuation_byte(y) >= 128 by {
            assert(0x80u8 | ((y >> 6) & 0x3F) as u8 >= 128) by (bit_vector);
        }
        assert forall|y: u32| #[trigger] third_last_continuation_byte(y) >= 128 by {
            assert(0x80u8 | ((y >> 12) & 0x3F) as u8 >= 128) by (bit_vector);
        }
        assert forall|y: u32| #[trigger] leading_byte_width_2(y) >= 128 by {
            assert(0xC0u8 | ((y >> 6) & 0x1F) as u8 >= 128) by (bit_vector);
        }
        assert forall|y: u32| #[trigger] leading_byte_width_3(y) >= 128 by {
            assert(0xE0u8 | ((y >> 12) & 0x0F) as u8 >= 128) by (bit_vector);
        }
        assert forall|y: u32| #[trigger] leading_byte_width_4(y) >= 128 by {
            assert(0xF0u8 | ((y >> 18) & 0x7) as u8 >= 128) by (bit_vector);
        }
    }
}

/// The UTF-8 bytes of characters other than the ASCII character `b` never
/// hold the byte `b`.
proof fn lemma_encode_free(cs: Seq<char>, b: u8)
    requires
        b < 128,
        !cs.contains(b as char),
    ensures
        forall|j: int| 0 <= j < encode_utf8(cs).len() ==> #[trigger] encode_utf8(cs)[j] != b,
    decreases cs.len(),
{
    if cs.len() > 0 {
        assert(!cs.drop_first().contains(b as char)) by {
            if cs.drop_first().contains(b as char) {
                let k = choose|k: int| 0 <= k < cs.drop_first().len() && cs.drop_first()[k] == b as char;
                assert(cs[k + 1] == b as char);
            }
        }
        assert(cs[0] != b as char);
        lemma_scalar_free(cs[0], b);
        lemma_encode_free(cs.drop_first(), b);
        let h = encode_scalar(cs[0] as u32);
        let t = encode_utf8(cs.drop_first());
        assert(encode_utf8(cs) == h + t);
        assert forall|j: int| 0 <= j < encode_utf8(cs).len() implies #[trigger] encode_utf8(cs)[j] != b by {
            if j < h.len() {
                assert(encode_utf8(cs)[j] == h[j]);
            } else {
                assert(encode_utf8(cs)[j] == t[j - h.len()]);
            }
        }
    }
}

/// Reading the bytes of an event, whatever bytes follow them, gives the event
/// back and stops at its end, whenever its type holds no space and no
/// carriage return.
pub proof fn lemma_ws_roundtrip_chars(etype: Seq<char>, content: Seq<u8>, rest: Seq<u8>)
    requires
        !etype.contains(' '),
        !etype.contains('\r'),
        content.len() <= usize::MAX,
    ensures
        spec_parse_ws(spec_ws_bytes(etype, content) + rest) == Some(
            (etype, content, spec_ws_bytes(etype, content).len()),
        ),
{
    assert(32u8 as char == ' ');
    assert(13u8 as char == '\r');
    lemma_encode_free(etype, 32);
    lemma_encode_free(etype, 13);
    lemma_ws_roundtrip(etype, content, rest);
}

} // verus!
