//! Unsigned numbers as ASCII digits, in base 10 and 16, and ASCII strings.

use vstd::prelude::*;
use vstd::utf8::*;

verus! {

/// Value of one digit in base `radix` (10 or 16; letters of either case).
pub open spec fn digit_value(c: u8, radix: nat) -> Option<nat> {
    if 48 <= c <= 57 && ((c - 48) as nat) < radix {
        Some((c - 48) as nat)
    } else if radix == 16 && 97 <= c <= 102 {
        Some((c - 87) as nat)
    } else if radix == 16 && 65 <= c <= 70 {
        Some((c - 55) as nat)
    } else {
        None
    }
}

/// Value of a run of digits; `None` when one is not a digit.
pub open spec fn digits_value(s: Seq<u8>, radix: nat) -> Option<nat>
    decreases s.len(),
{
    if s.len() == 0 {
        Some(0)
    } else {
        match (digits_value(s.drop_last(), radix), digit_value(s.last(), radix)) {
            (Some(v), Some(d)) => Some(v * radix + d),
            _ => None,
        }
    }
}

/// An unsigned number: an optional `+`, then at least one digit.
pub open spec fn spec_parse_uint(s: Seq<u8>, radix: nat) -> Option<nat> {
    let d = if s.len() > 0 && s[0] == 43 {
        s.drop_first()
    } else {
        s
    };
    if d.len() == 0 {
        None
    } else {
        digits_value(d, radix)
    }
}

/// The digit for `d`, lower case.
pub open spec fn digit_char(d: nat) -> u8 {
    if d < 10 {
        (48 + d) as u8
    } else {
        (87 + d) as u8
    }
}

/// `n` in base 16 when `radix` is 16, else in base 10, without leading zeros.
pub open spec fn radix_text(n: nat, radix: nat) -> Seq<u8>
    decreases n,
{
    if radix == 16 {
        if n < 16 {
            seq![digit_char(n)]
        } else {
            radix_text(n / 16, radix).push(digit_char(n % 16))
        }
    } else {
        if n < 10 {
            seq![digit_char(n)]
        } else {
            radix_text(n / 10, radix).push(digit_char(n % 10))
        }
    }
}

/// The last `k` hexadecimal digits of `n`, zeros in front.
pub open spec fn hex_fixed(n: nat, k: nat) -> Seq<u8>
    decreases k,
{
    if k == 0 {
        Seq::empty()
    } else {
        hex_fixed(n / 16, (k - 1) as nat).push(digit_char(n % 16))
    }
}

/// Whether every byte is a digit of base 10 or a lower-case one of base 16.
pub open spec fn lower_digits(s: Seq<u8>, radix: nat) -> bool {
    forall|i: int|
        0 <= i < s.len() ==> (48 <= #[trigger] s[i] <= 57 && s[i] - 48 < radix) || (radix == 16
            && 97 <= s[i] <= 102)
}

/// Reads an unsigned number in base `radix` (10 or 16); `None` when it is
/// malformed or does not fit in a `u64`.
pub fn parse_uint(s: &[u8], radix: u64) -> (r: Option<u64>)
    requires
        radix == 10 || radix == 16,
    ensures
        r == match spec_parse_uint(s@, radix as nat) {
            Some(v) => if v <= u64::MAX {
                Some(v as u64)
            } else {
                None
            },
            None => None,
        },
{
    let start: usize = if s.len() > 0 && s[0] == 43 {
        1
    } else {
        0
    };
    let ghost d = if s@.len() > 0 && s@[0] == 43 {
        s@.drop_first()
    } else {
        s@
    };
    assert(d =~= s@.subrange(start as int, s@.len() as int));
    if start >= s.len() {
        return None;
    }
    let mut i = start;
    let mut value: u64 = 0;
    while i < s.len()
        invariant
            start <= i <= s@.len(),
            radix == 10 || radix == 16,
            digits_value(s@.subrange(start as int, i as int), radix as nat) == Some(value as nat),
            d == s@.subrange(start as int, s@.len() as int),
            d.len() > 0,
            spec_parse_uint(s@, radix as nat) == digits_value(d, radix as nat),
        decreases s@.len() - i,
    {
        let c = s[i];
        let dv: u64 = if 48 <= c && c <= 57 && ((c - 48) as u64) < radix {
            (c - 48) as u64
        } else if radix == 16 && 97 <= c && c <= 102 {
            (c - 87) as u64
        } else if radix == 16 && 65 <= c && c <= 70 {
            (c - 55) as u64
        } else {
            proof {
                assert(d.subrange(0, (i - start + 1) as int) =~= s@.subrange(start as int, i + 1));
                assert(s@.subrange(start as int, i + 1).drop_last() =~= s@.subrange(start as int, i as int));
                assert(s@.subrange(start as int, i + 1).last() == c);
                lemma_digits_prefix_none(d, (i - start) as int, radix as nat);
            }
            return None;
        };
        assert(s@.subrange(start as int, i + 1).drop_last() =~= s@.subrange(start as int, i as int));
        let lim = (u64::MAX - dv) / radix;
        if value > lim {
            proof {
                assert(d.subrange(0, (i - start) as int) =~= s@.subrange(start as int, i as int));
                assert(d[i - start] == c);
                lemma_digits_overflow(d, (i - start) as int, radix as nat, value as nat, dv as nat);
            }
            return None;
        }
        proof {
            let m = u64::MAX - dv;
            assert(value * radix <= m) by (nonlinear_arith)
                requires
                    value <= lim,
                    lim == m / (radix as int),
                    radix > 0,
                    m >= 0,
            ;
        }
        value = value * radix + dv;
        i = i + 1;
    }
    assert(s@.subrange(start as int, s@.len() as int) =~= d);
    Some(value)
}

proof fn lemma_digits_prefix_none(s: Seq<u8>, i: int, radix: nat)
    requires
        0 <= i < s.len(),
        digits_value(s.subrange(0, i + 1), radix) is None,
    ensures
        digits_value(s, radix) is None,
    decreases s.len(),
{
    if i + 1 < s.len() {
        assert(s.drop_last().subrange(0, i + 1) =~= s.subrange(0, i + 1));
        lemma_digits_prefix_none(s.drop_last(), i, radix);
    } else {
        assert(s.subrange(0, i + 1) =~= s);
    }
}

proof fn lemma_digits_grow(s: Seq<u8>, radix: nat)
    requires
        radix >= 1,
        digits_value(s, radix) is Some,
    ensures
        forall|j: int|
            0 <= j <= s.len() ==> #[trigger] digits_value(s.subrange(0, j), radix) is Some
                && digits_value(s.subrange(0, j), radix).unwrap() <= digits_value(s, radix).unwrap(),
    decreases s.len(),
{
    if s.len() > 0 {
        lemma_digits_grow(s.drop_last(), radix);
        let v = digits_value(s.drop_last(), radix).unwrap();
        assert(v <= v * radix) by (nonlinear_arith)
            requires
                radix >= 1,
        ;
        assert forall|j: int| 0 <= j <= s.len() implies #[trigger] digits_value(
            s.subrange(0, j),
            radix,
        ) is Some && digits_value(s.subrange(0, j), radix).unwrap() <= digits_value(
            s,
            radix,
        ).unwrap() by {
            if j < s.len() {
                assert(s.drop_last().subrange(0, j) =~= s.subrange(0, j));
            } else {
                assert(s.subrange(0, j) =~= s);
            }
        }
    } else {
        assert forall|j: int| 0 <= j <= s.len() implies #[trigger] digits_value(
            s.subrange(0, j),
            radix,
        ) is Some && digits_value(s.subrange(0, j), radix).unwrap() <= digits_value(
            s,
            radix,
        ).unwrap() by {
            assert(s.subrange(0, j) =~= s);
        }
    }
}

proof fn lemma_digits_overflow(s: Seq<u8>, i: int, radix: nat, value: nat, dv: nat)
    requires
        0 <= i < s.len(),
        radix >= 1,
        digits_value(s.subrange(0, i), radix) == Some(value),
        digit_value(s[i], radix) == Some(dv),
        value * radix + dv > u64::MAX,
    ensures
        digits_value(s, radix) matches Some(v) ==> v > u64::MAX,
{
    if digits_value(s, radix) is Some {
        lemma_digits_grow(s, radix);
        let p = s.subrange(0, i + 1);
        assert(p.drop_last() =~= s.subrange(0, i));
        assert(digits_value(p, radix) == Some(value * radix + dv));
    }
}

/// Appends `n` in base `radix`, without leading zeros.
pub fn write_uint(dest: &mut Vec<u8>, n: u64, radix: u64)
    requires
        radix == 10 || radix == 16,
    ensures
        final(dest)@ == old(dest)@ + radix_text(n as nat, radix as nat),
    decreases n,
{
    if n < radix {
        let c: u8 = if n < 10 {
            (48 + n) as u8
        } else {
            (87 + n) as u8
        };
        dest.push(c);
        assert(final(dest)@ =~= old(dest)@ + radix_text(n as nat, radix as nat));
    } else {
        write_uint(dest, n / radix, radix);
        let d = n % radix;
        let c: u8 = if d < 10 {
            (48 + d) as u8
        } else {
            (87 + d) as u8
        };
        dest.push(c);
        assert(dest@ =~= old(dest)@ + radix_text(n as nat, radix as nat));
    }
}

/// Appends the last `k` hexadecimal digits of `n`, zeros in front.
pub fn write_hex_fixed(dest: &mut Vec<u8>, n: u64, k: u64)
    ensures
        final(dest)@ == old(dest)@ + hex_fixed(n as nat, k as nat),
    decreases k,
{
    if k > 0 {
        write_hex_fixed(dest, n / 16, k - 1);
        let d = n % 16;
        let c: u8 = if d < 10 {
            (48 + d) as u8
        } else {
            (87 + d) as u8
        };
        dest.push(c);
        assert(dest@ =~= old(dest)@ + hex_fixed(n as nat, k as nat));
    } else {
        assert(dest@ =~= old(dest)@ + hex_fixed(n as nat, k as nat));
    }
}

pub proof fn lemma_radix_text(n: nat, radix: nat)
    requires
        radix == 10 || radix == 16,
    ensures
        digits_value(radix_text(n, radix), radix) == Some(n),
        radix_text(n, radix).len() >= 1,
        lower_digits(radix_text(n, radix), radix),
    decreases n,
{
    let t = radix_text(n, radix);
    if n >= radix {
        let q: nat = if radix == 16 {
            n / 16
        } else {
            n / 10
        };
        lemma_radix_text(q, radix);
        assert(t.drop_last() =~= radix_text(q, radix));
        let m: nat = if radix == 16 {
            n % 16
        } else {
            n % 10
        };
        assert(t.last() == digit_char(m));
        assert(digit_value(digit_char(m), radix) == Some(m));
        assert(q * radix + m == n);
        assert forall|i: int| 0 <= i < t.len() implies (48 <= #[trigger] t[i] <= 57 && t[i] - 48
            < radix) || (radix == 16 && 97 <= t[i] <= 102) by {
            if i < t.len() - 1 {
                assert(t[i] == radix_text(q, radix)[i]);
            }
        }
    } else {
        assert(t.drop_last() =~= Seq::<u8>::empty());
        assert(t.last() == digit_char(n));
        assert(digit_value(digit_char(n), radix) == Some(n));
        assert(digits_value(t.drop_last(), radix) == Some(0nat));
    }
}

pub proof fn lemma_hex_fixed(n: nat, k: nat)
    ensures
        digits_value(hex_fixed(n, k), 16) == Some(n % vstd::arithmetic::power::pow(16, k) as nat),
        hex_fixed(n, k).len() == k,
        lower_digits(hex_fixed(n, k), 16),
    decreases k,
{
    let t = hex_fixed(n, k);
    vstd::arithmetic::power::lemma_pow_positive(16, k);
    if k > 0 {
        lemma_hex_fixed(n / 16, (k - 1) as nat);
        assert(t.drop_last() =~= hex_fixed(n / 16, (k - 1) as nat));
        let p = vstd::arithmetic::power::pow(16, (k - 1) as nat);
        vstd::arithmetic::power::lemma_pow_positive(16, (k - 1) as nat);
        assert(vstd::arithmetic::power::pow(16, k) == 16 * p) by {
            vstd::arithmetic::power::lemma_pow_adds(16, 1, (k - 1) as nat);
            vstd::arithmetic::power::lemma_pow1(16);
        }
        vstd::arithmetic::div_mod::lemma_breakdown(n as int, 16, p);
        assert forall|i: int| 0 <= i < t.len() implies (48 <= #[trigger] t[i] <= 57 && t[i] - 48
            < 16) || (97 <= t[i] <= 102) by {
            if i < t.len() - 1 {
                assert(t[i] == hex_fixed(n / 16, (k - 1) as nat)[i]);
            }
        }
    } else {
        vstd::arithmetic::power::lemma_pow0(16);
    }
}

/// The first index at or after `i` where `s` holds `c`.
pub open spec fn find_from(s: Seq<u8>, c: u8, i: int) -> Option<int>
    decreases s.len() - i,
{
    if i < 0 || i >= s.len() {
        None
    } else if s[i] == c {
        Some(i)
    } else {
        find_from(s, c, i + 1)
    }
}

/// The first index where `s` holds `c`.
pub open spec fn find_first(s: Seq<u8>, c: u8) -> Option<int> {
    find_from(s, c, 0)
}

pub proof fn lemma_find_first_at(s: Seq<u8>, c: u8, k: int)
    requires
        0 <= k < s.len(),
        s[k] == c,
        forall|i: int| 0 <= i < k ==> s[i] != c,
    ensures
        find_first(s, c) == Some(k),
{
    lemma_find_from_at(s, c, k, 0);
}

proof fn lemma_find_from_at(s: Seq<u8>, c: u8, k: int, i: int)
    requires
        0 <= i <= k < s.len(),
        s[k] == c,
        forall|j: int| i <= j < k ==> s[j] != c,
    ensures
        find_from(s, c, i) == Some(k),
    decreases k - i,
{
    if i < k {
        lemma_find_from_at(s, c, k, i + 1);
    }
}

pub proof fn lemma_find_first_none(s: Seq<u8>, c: u8)
    requires
        forall|i: int| 0 <= i < s.len() ==> s[i] != c,
    ensures
        find_first(s, c) is None,
{
    lemma_find_from_none(s, c, 0);
}

proof fn lemma_find_from_none(s: Seq<u8>, c: u8, i: int)
    requires
        0 <= i,
        forall|j: int| i <= j < s.len() ==> s[j] != c,
    ensures
        find_from(s, c, i) is None,
    decreases s.len() - i,
{
    if i < s.len() {
        lemma_find_from_none(s, c, i + 1);
    }
}

pub proof fn lemma_find_first_bound(s: Seq<u8>, c: u8)
    ensures
        find_first(s, c) matches Some(i) ==> 0 <= i < s.len() && s[i] == c,
{
    lemma_find_from_bound(s, c, 0);
}

proof fn lemma_find_from_bound(s: Seq<u8>, c: u8, i: int)
    ensures
        find_from(s, c, i) matches Some(k) ==> i <= k < s.len() && 0 <= k && s[k] == c,
    decreases s.len() - i,
{
    if 0 <= i < s.len() && s[i] != c {
        lemma_find_from_bound(s, c, i + 1);
    }
}

/// The position of the first `needle` in `haystack`.
pub fn find_byte(haystack: &[u8], needle: u8) -> (r: Option<usize>)
    ensures
        find_first(haystack@, needle) == match r {
            Some(i) => Some(i as int),
            None => None::<int>,
        },
        r matches Some(i) ==> i < haystack@.len() && haystack@[i as int] == needle,
{
    let mut i: usize = 0;
    while i < haystack.len()
        invariant
            i <= haystack@.len(),
            find_first(haystack@, needle) == find_from(haystack@, needle, i as int),
        decreases haystack@.len() - i,
    {
        if haystack[i] == needle {
            return Some(i);
        }
        i = i + 1;
    }
    None
}

/// Whether two strings hold the same characters.
pub fn str_eq(a: &str, b: &str) -> (r: bool)
    ensures
        r == (a@ == b@),
{
    let x = a.as_bytes();
    let y = b.as_bytes();
    proof {
        encode_utf8_decode_utf8(a@);
        encode_utf8_decode_utf8(b@);
    }
    if x.len() != y.len() {
        return false;
    }
    let mut i: usize = 0;
    while i < x.len()
        invariant
            i <= x@.len() == y@.len(),
            x@ == encode_utf8(a@),
            y@ == encode_utf8(b@),
            forall|j: int| 0 <= j < i ==> x@[j] == y@[j],
        decreases x@.len() - i,
    {
        if x[i] != y[i] {
            return false;
        }
        i = i + 1;
    }
    assert(x@ =~= y@);
    true
}

/// Whether `s` holds the character `c`.
pub fn contains_char(s: &str, c: char) -> (r: bool)
    ensures
        r == s@.contains(c),
{
    let n = s.unicode_len();
    let mut i: usize = 0;
    while i < n
        invariant
            n == s@.len(),
            i <= n,
            forall|j: int| 0 <= j < i ==> s@[j] != c,
        decreases n - i,
    {
        if s.get_char(i) == c {
            return true;
        }
        i = i + 1;
    }
    false
}

/// Whether `s` starts with the character `c`.
pub fn starts_with_ascii(s: &str, c: u8) -> (r: bool)
    requires
        c < 128,
    ensures
        r == (s@.len() > 0 && s@[0] == c as char),
{
    let b = s.as_bytes();
    proof {
        lemma_first_byte(s@, c);
    }
    b.len() > 0 && b[0] == c
}

proof fn lemma_first_byte(s: Seq<char>, c: u8)
    requires
        c < 128,
    ensures
        (encode_utf8(s).len() > 0 && encode_utf8(s)[0] == c) == (s.len() > 0 && s[0] == c as char),
{
    if s.len() > 0 {
        encode_utf8_first_scalar(s);
        encode_utf8_valid_utf8(s);
        let b = encode_utf8(s);
        let x = s[0] as u32;
        vstd::utf8::char_u32_cast(s[0], x);
        assert(encode_utf8(s) =~= encode_scalar(x) + encode_utf8(s.drop_first()));
        if b[0] == c {
            assert(x == c as u32) by {
                assert(encode_scalar(x)[0] == c);
                if has_width_1_encoding(x) {
                    assert(x as u8 == leading_byte_width_1(x)) by (bit_vector)
                        requires
                            has_width_1_encoding(x),
                    ;
                } else if has_width_2_encoding(x) {
                    assert(leading_byte_width_2(x) >= 128) by (bit_vector);
                } else if has_width_3_encoding(x) {
                    assert(leading_byte_width_3(x) >= 128) by (bit_vector);
                } else {
                    assert(leading_byte_width_4(x) >= 128) by (bit_vector);
                }
            }
        }
        if s[0] == c as char {
            assert(has_width_1_encoding(x));
            assert(x as u8 == leading_byte_width_1(x)) by (bit_vector)
                requires
                    has_width_1_encoding(x),
            ;
        }
    }
}

/// The first index at or after `i` where `s` holds the character `c`.
pub open spec fn find_char_from(s: Seq<char>, c: char, i: int) -> Option<int>
    decreases s.len() - i,
{
    if i < 0 || i >= s.len() {
        None
    } else if s[i] == c {
        Some(i)
    } else {
        find_char_from(s, c, i + 1)
    }
}

/// The first index where `s` holds the character `c`.
pub open spec fn find_char(s: Seq<char>, c: char) -> Option<int> {
    find_char_from(s, c, 0)
}

/// Where the character `c` first stands in `s`, counting characters.
pub fn char_index(s: &str, c: char) -> (r: Option<usize>)
    ensures
        find_char(s@, c) == match r {
            Some(i) => Some(i as int),
            None => None::<int>,
        },
        r matches Some(i) ==> i < s@.len() && s@[i as int] == c,
{
    let n = s.unicode_len();
    let mut i: usize = 0;
    while i < n
        invariant
            n == s@.len(),
            i <= n,
            find_char(s@, c) == find_char_from(s@, c, i as int),
        decreases n - i,
    {
        if s.get_char(i) == c {
            return Some(i);
        }
        i = i + 1;
    }
    None
}

/// The first index where `pat` stands in `s`, looking from `i` on.
pub open spec fn find_seq_from(s: Seq<char>, pat: Seq<char>, i: int) -> Option<int>
    decreases s.len() + 1 - i,
{
    if i < 0 || i + pat.len() > s.len() {
        None
    } else if s.subrange(i, i + pat.len()) == pat {
        Some(i)
    } else {
        find_seq_from(s, pat, i + 1)
    }
}

/// Where `pat` first stands in `s`, counting characters.
pub fn seq_index(s: &str, pat: &str) -> (r: Option<usize>)
    ensures
        find_seq_from(s@, pat@, 0) == match r {
            Some(i) => Some(i as int),
            None => None::<int>,
        },
        r matches Some(i) ==> i + pat@.len() <= s@.len(),
{
    let n = s.unicode_len();
    let m = pat.unicode_len();
    if m > n {
        return None;
    }
    let mut i: usize = 0;
    while i <= n - m
        invariant
            n == s@.len(),
            m == pat@.len(),
            m <= n,
            i <= n - m + 1,
            find_seq_from(s@, pat@, 0) == find_seq_from(s@, pat@, i as int),
        decreases n - i,
    {
        let mut j: usize = 0;
        while j < m && s.get_char(i + j) == pat.get_char(j)
            invariant
                n == s@.len(),
                m == pat@.len(),
                i + m <= n,
                j <= m,
                forall|k: int| 0 <= k < j ==> s@[i + k] == pat@[k],
            decreases m - j,
        {
            j = j + 1;
        }
        if j == m {
            assert(s@.subrange(i as int, i + m) =~= pat@);
            return Some(i);
        }
        assert(s@.subrange(i as int, i + m) != pat@) by {
            assert(s@.subrange(i as int, i + m)[j as int] != pat@[j as int]);
        }
        i = i + 1;
    }
    None
}

/// The characters of `s` between character indices `a` and `b`.
pub fn substring(s: &str, a: usize, b: usize) -> (r: String)
    requires
        a <= b <= s@.len(),
    ensures
        r@ == s@.subrange(a as int, b as int),
{
    String::from_str(s.substring_char(a, b))
}

/// Whether a character has the Unicode White_Space property.
pub open spec fn is_white_space(c: char) -> bool {
    let u = c as u32;
    (0x9 <= u <= 0xd) || u == 0x20 || u == 0x85 || u == 0xa0 || u == 0x1680 || (0x2000 <= u
        <= 0x200a) || u == 0x2028 || u == 0x2029 || u == 0x202f || u == 0x205f || u == 0x3000
}

pub open spec fn trim_front(s: Seq<char>) -> Seq<char>
    decreases s.len(),
{
    if s.len() > 0 && is_white_space(s[0]) {
        trim_front(s.drop_first())
    } else {
        s
    }
}

pub open spec fn trim_back(s: Seq<char>) -> Seq<char>
    decreases s.len(),
{
    if s.len() > 0 && is_white_space(s.last()) {
        trim_back(s.drop_last())
    } else {
        s
    }
}

/// What `str::trim` leaves of a string: the white space at both ends gone.
pub open spec fn trimmed(s: Seq<char>) -> Seq<char> {
    trim_back(trim_front(s))
}

/// Relies on `str::trim`: the string without leading and trailing white
/// space (`char::is_whitespace`, the White_Space property).
#[verifier::external_body]
pub(crate) fn trim_str(s: &str) -> (r: String)
    ensures
        r@ == trimmed(s@),
{
    s.trim().to_string()
}

/// Relies on `String::push`: it appends one character.
#[verifier::external_body]
pub(crate) fn push_char(s: &mut String, c: char)
    ensures
        final(s)@ == old(s)@.push(c),
{
    s.push(c)
}

/// Relies on `String::from_utf8`: it accepts exactly the valid UTF-8 byte
/// sequences, and decodes them.
#[verifier::external_body]
pub(crate) fn string_from_utf8(b: Vec<u8>) -> (r: Option<String>)
    ensures
        r is Some <==> valid_utf8(b@),
        r matches Some(s) ==> s@ == decode_utf8(b@),
{
    String::from_utf8(b).ok()
}

/// The characters of ASCII bytes.
pub open spec fn ascii_chars(b: Seq<u8>) -> Seq<char> {
    Seq::new(b.len(), |i: int| b[i] as char)
}

pub proof fn lemma_ascii_utf8(b: Seq<u8>)
    requires
        forall|i: int| 0 <= i < b.len() ==> #[trigger] b[i] < 128,
    ensures
        encode_utf8(ascii_chars(b)) == b,
        valid_utf8(b),
        decode_utf8(b) == ascii_chars(b),
{
    let c = ascii_chars(b);
    assert(is_ascii_chars(c)) by {
        assert forall|i: int| 0 <= i < c.len() implies '\0' <= #[trigger] c[i] <= '\u{7f}' by {
            assert(c[i] == b[i] as char);
        }
    }
    is_ascii_chars_encode_utf8(c);
    assert(encode_utf8(c) =~= b);
    encode_utf8_valid_utf8(c);
    encode_utf8_decode_utf8(c);
}

/// A `String` of ASCII bytes.
pub fn ascii_string(b: Vec<u8>) -> (r: String)
    requires
        forall|i: int| 0 <= i < b@.len() ==> #[trigger] b@[i] < 128,
    ensures
        r@ == ascii_chars(b@),
{
    proof {
        lemma_ascii_utf8(b@);
    }
    let ghost bv = b@;
    match string_from_utf8(b) {
        Some(s) => s,
        None => {
            assert(false);
            String::new()
        },
    }
}

} // verus!
