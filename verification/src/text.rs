//! Decimal text and the byte form of ASCII text: the specifications that the
//! wire format and the command arguments share, and their verified
//! implementations.
use vstd::prelude::*;
use vstd::utf8::*;
use vstd::string::StringExecFns;
use crate::ext::char_text;

verus! {

/// `c` is one of the ASCII digits `0` to `9`.
pub open spec fn is_digit(c: char) -> bool {
    '0' <= c && c <= '9'
}

/// Every character of `s` is ASCII.
pub open spec fn all_ascii(s: Seq<char>) -> bool {
    forall|i: int| 0 <= i < s.len() ==> (#[trigger] s[i] as u32) < 128
}

/// The upper case of an ASCII character: `a` to `z` become `A` to `Z`, and
/// every other character stays.
pub open spec fn ascii_upper_char(c: char) -> char {
    if 'a' <= c && c <= 'z' { ((c as u32) - 32) as char } else { c }
}

/// The upper case of ASCII text, character by character.
pub open spec fn ascii_upper(s: Seq<char>) -> Seq<char> {
    s.map_values(|c: char| ascii_upper_char(c))
}

/// The value of an ASCII digit.
pub open spec fn digit_value(c: char) -> int {
    (c as int) - 48
}

/// The digit that stands for `d` (for `0 <= d < 10`).
pub open spec fn digit_char(d: int) -> char {
    (d + 48) as char
}

/// Every character of `s` is an ASCII digit.
pub open spec fn all_digits(s: Seq<char>) -> bool {
    forall|i: int| 0 <= i < s.len() ==> is_digit(#[trigger] s[i])
}

/// The value of a string of digits read in base ten (most significant first).
pub open spec fn digits_value(s: Seq<char>) -> int
    decreases s.len(),
{
    if s.len() == 0 {
        0
    } else {
        digits_value(s.drop_last()) * 10 + digit_value(s.last())
    }
}

/// The `i64` that `s` writes in decimal: an optional `+` or `-`, then one or
/// more digits, and a value in range; `None` for any other text.
pub open spec fn decimal_i64(s: Seq<char>) -> Option<i64> {
    let signed = s.len() > 0 && (s[0] == '+' || s[0] == '-');
    let body = if signed { s.drop_first() } else { s };
    let v = if s.len() > 0 && s[0] == '-' { -digits_value(body) } else { digits_value(body) };
    if body.len() == 0 || !all_digits(body) {
        None
    } else if i64::MIN <= v <= i64::MAX {
        Some(v as i64)
    } else {
        None
    }
}

/// The `u64` that `s` writes in decimal: an optional `+`, then one or more
/// digits, and a value in range; `None` for any other text.
pub open spec fn decimal_u64(s: Seq<char>) -> Option<u64> {
    let body = if s.len() > 0 && s[0] == '+' { s.drop_first() } else { s };
    if body.len() == 0 || !all_digits(body) {
        None
    } else if digits_value(body) <= u64::MAX {
        Some(digits_value(body) as u64)
    } else {
        None
    }
}

/// The `u128` that `s` writes in decimal: an optional `+`, then one or more
/// digits, and a value in range; `None` for any other text.
pub open spec fn decimal_u128(s: Seq<char>) -> Option<u128> {
    let body = if s.len() > 0 && s[0] == '+' { s.drop_first() } else { s };
    if body.len() == 0 || !all_digits(body) {
        None
    } else if digits_value(body) <= u128::MAX {
        Some(digits_value(body) as u128)
    } else {
        None
    }
}

/// The decimal digits of a `u128` read back as it.
pub proof fn lemma_u128_digits(n: u128)
    ensures
        decimal_u128(nat_digits(n as nat)) == Some(n),
{
    lemma_nat_digits(n as nat);
    assert(is_digit(nat_digits(n as nat)[0]));
}

/// The shortest decimal digits of `n`.
pub open spec fn nat_digits(n: nat) -> Seq<char>
    decreases n,
{
    if n < 10 {
        seq![digit_char(n as int)]
    } else {
        nat_digits(n / 10).push(digit_char((n % 10) as int))
    }
}

/// The decimal text of `i`: a `-` for a negative number, then its digits.
pub open spec fn int_text(i: int) -> Seq<char> {
    if i < 0 {
        seq!['-'] + nat_digits((-i) as nat)
    } else {
        nat_digits(i as nat)
    }
}

/// The bytes of an ASCII text, one per character.
pub open spec fn ascii_bytes(s: Seq<char>) -> Seq<u8> {
    Seq::new(s.len(), |i: int| s[i] as u8)
}

pub proof fn lemma_digit_char(d: int)
    requires
        0 <= d < 10,
    ensures
        is_digit(digit_char(d)),
        digit_value(digit_char(d)) == d,
        digit_char(d) as u8 == d + 48,
{
}

/// The digits of `n` are digits, ASCII, not empty, and read back as `n`.
pub proof fn lemma_nat_digits(n: nat)
    ensures
        nat_digits(n).len() >= 1,
        all_digits(nat_digits(n)),
        is_ascii_chars(nat_digits(n)),
        digits_value(nat_digits(n)) == n,
    decreases n,
{
    if n < 10 {
        lemma_digit_char(n as int);
        assert(nat_digits(n).drop_last() =~= Seq::<char>::empty());
        assert(digits_value(nat_digits(n)) == digits_value(nat_digits(n).drop_last()) * 10 + digit_value(nat_digits(n).last()));
    } else {
        lemma_nat_digits(n / 10);
        lemma_digit_char((n % 10) as int);
        let s = nat_digits(n);
        assert(s.drop_last() =~= nat_digits(n / 10));
        assert(s.last() == digit_char((n % 10) as int));
        assert((n / 10) * 10 + n % 10 == n) by (nonlinear_arith);
        assert(digits_value(s) == digits_value(s.drop_last()) * 10 + digit_value(s.last()));
        assert forall|i: int| 0 <= i < s.len() implies is_digit(#[trigger] s[i]) by {
            if i < s.len() - 1 {
                assert(s[i] == nat_digits(n / 10)[i]);
            }
        }
        assert forall|i: int| 0 <= i < s.len() implies '\0' <= #[trigger] s[i] <= '\u{7f}' by {
            if i < s.len() - 1 {
                assert(s[i] == nat_digits(n / 10)[i]);
            }
        }
    }
}

/// The decimal text of an `i64` parses back to it.
pub proof fn lemma_int_text_roundtrip(i: i64)
    ensures
        decimal_i64(int_text(i as int)) == Some(i),
        is_ascii_chars(int_text(i as int)),
        int_text(i as int).len() >= 1,
{
    if i < 0 {
        let m = (-i) as nat;
        lemma_nat_digits(m);
        let s = int_text(i as int);
        assert(s.drop_first() =~= nat_digits(m));
        assert forall|k: int| 0 <= k < s.len() implies '\0' <= #[trigger] s[k] <= '\u{7f}' by {
            if k > 0 {
                assert(s[k] == nat_digits(m)[k - 1]);
            }
        }
    } else {
        lemma_nat_digits(i as nat);
        let s = nat_digits(i as nat);
        assert(is_digit(s[0]));
    }
}

/// The UTF-8 encoding of ASCII text is its bytes, one per character.
pub proof fn lemma_ascii_encoding(s: Seq<char>)
    requires
        is_ascii_chars(s),
    ensures
        encode_utf8(s) == ascii_bytes(s),
{
    is_ascii_chars_encode_utf8(s);
    assert(encode_utf8(s) =~= ascii_bytes(s));
}

/// UTF-8 encoding distributes over concatenation.
pub proof fn lemma_encode_concat(a: Seq<char>, b: Seq<char>)
    ensures
        encode_utf8(a + b) == encode_utf8(a) + encode_utf8(b),
    decreases a.len(),
{
    if a.len() == 0 {
        assert(a + b =~= b);
    } else {
        assert((a + b).drop_first() =~= a.drop_first() + b);
        assert((a + b)[0] == a[0]);
        lemma_encode_concat(a.drop_first(), b);
    }
}

/// Appends the decimal digits of `n` to `out`.
pub fn push_digits(out: &mut Vec<u8>, n: u64)
    ensures
        final(out)@ == old(out)@ + ascii_bytes(nat_digits(n as nat)),
    decreases n,
{
    if n >= 10 {
        push_digits(out, n / 10);
    }
    let d: u8 = (n % 10) as u8;
    let c: u8 = d + 48;
    out.push(c);
    proof {
        lemma_digit_char(d as int);
        if n >= 10 {
            assert(ascii_bytes(nat_digits(n as nat)) =~= ascii_bytes(nat_digits((n / 10) as nat)).push(c));
        } else {
            assert(ascii_bytes(nat_digits(n as nat)) =~= seq![c]);
        }
    }
}

/// The decimal digits of `n`, as text.
pub fn digits_text(n: u128) -> (r: String)
    ensures
        r@ == nat_digits(n as nat),
    decreases n,
{
    let d: u8 = (n % 10) as u8;
    let c: char = (d + 48u8) as char;
    assert(c == digit_char((n % 10) as int));
    let last = char_text(c);
    if n >= 10 {
        let front = digits_text(n / 10);
        let r = front.concat(last.as_str());
        assert(r@ =~= nat_digits(n as nat));
        r
    } else {
        assert(last@ =~= nat_digits(n as nat));
        last
    }
}

/// Appends the decimal text of `i` to `out`.
pub fn push_int(out: &mut Vec<u8>, i: i64)
    ensures
        final(out)@ == old(out)@ + ascii_bytes(int_text(i as int)),
{
    if i < 0 {
        out.push(45u8);
        let m: u64 = (0i128 - (i as i128)) as u64;
        let ghost mid = out@;
        push_digits(out, m);
        assert(ascii_bytes(int_text(i as int)) =~= seq![45u8] + ascii_bytes(nat_digits(m as nat)));
    } else {
        push_digits(out, i as u64);
    }
}

/// Appends the bytes of a string slice to `out`.
pub fn push_str_bytes(out: &mut Vec<u8>, s: &str)
    ensures
        final(out)@ == old(out)@ + encode_utf8(s@),
{
    let b = s.as_bytes();
    let mut i: usize = 0;
    while i < b.len()
        invariant
            i <= b@.len(),
            b@ == encode_utf8(s@),
            out@ == old(out)@ + b@.subrange(0, i as int),
        decreases b@.len() - i,
    {
        out.push(b[i]);
        i = i + 1;
        assert(b@.subrange(0, i as int) =~= b@.subrange(0, i - 1).push(b@[i - 1]));
    }
    assert(b@.subrange(0, i as int) =~= b@);
}

} // verus!

verus! {

/// The text `prefix` followed by `detail`.
pub fn join(prefix: &str, detail: &str) -> (r: String)
    ensures
        r@ == prefix@ + detail@,
{
    let start: String = prefix.to_owned();
    start.concat(detail)
}

} // verus!

verus! {

/// Whether two texts are the same.
pub fn str_eq(a: &str, b: &str) -> (r: bool)
    ensures
        r == (a@ == b@),
{
    let x = a.as_bytes();
    let y = b.as_bytes();
    proof {
        encode_utf8_decode_utf8(a@);
        encode_utf8_decode_utf8(b@);
    }
    assert(x@ == encode_utf8(a@) && y@ == encode_utf8(b@));
    if x.len() != y.len() {
        return false;
    }
    let mut i: usize = 0;
    while i < x.len()
        invariant
            i <= x@.len(),
            x@.len() == y@.len(),
            x@ == encode_utf8(a@),
            y@ == encode_utf8(b@),
            forall|j: int| 0 <= j < i ==> x@[j] == y@[j],
        decreases x@.len() - i,
    {
        if x[i] != y[i] {
            assert(x@ != y@);
            return false;
        }
        i = i + 1;
    }
    assert(x@ =~= y@);
    true
}

} // verus!
