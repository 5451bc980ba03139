//! Decimal and hexadecimal text, and the few `String` operations of std that the
//! rest of the crate builds on.
use std::string::FromUtf8Error;
use vstd::prelude::*;
use vstd::utf8::*;

verus! {

/// True for the ASCII bytes `'0'..='9'`.
pub open spec fn is_digit(b: u8) -> bool {
    48 <= b <= 57
}

/// True when every byte of `s` is an ASCII digit.
pub open spec fn all_digits(s: Seq<u8>) -> bool {
    forall|i: int| 0 <= i < s.len() ==> is_digit(#[trigger] s[i])
}

/// The number that the ASCII digits `s` spell in base ten (most significant first).
pub open spec fn digits_value(s: Seq<u8>) -> nat
    decreases s.len(),
{
    if s.len() == 0 {
        0
    } else {
        digits_value(s.drop_last()) * 10 + ((s.last() - 48) as nat)
    }
}

/// The shortest base-ten spelling of `n` in ASCII digits, as `to_string` writes it.
pub open spec fn decimal(n: nat) -> Seq<u8>
    decreases n,
{
    if n < 10 {
        seq![(48 + n) as u8]
    } else {
        decimal(n / 10).push((48 + n % 10) as u8)
    }
}

/// The spelling of a signed integer: a minus sign before the digits of its magnitude.
pub open spec fn int_decimal(i: int) -> Seq<u8> {
    if i < 0 {
        seq![45u8] + decimal((-i) as nat)
    } else {
        decimal(i as nat)
    }
}

/// The lower-case hexadecimal digit of a value below sixteen.
pub open spec fn hex_digit(n: int) -> u8 {
    if n < 10 {
        (48 + n) as u8
    } else {
        (87 + n) as u8
    }
}

/// Two lower-case hexadecimal digits of a byte, as `{:02x}` writes them.
pub open spec fn hex2(b: u8) -> Seq<u8> {
    seq![hex_digit((b / 16) as int), hex_digit((b % 16) as int)]
}

/// Each byte read as the character with the same number (Latin-1).
pub open spec fn latin1(s: Seq<u8>) -> Seq<char> {
    s.map_values(|b: u8| b as char)
}

/// `decimal(n)` is a non-empty run of digits that spells `n`, one digit long exactly
/// below ten.
pub proof fn lemma_decimal_digits(n: nat)
    ensures
        decimal(n).len() >= 1,
        all_digits(decimal(n)),
        digits_value(decimal(n)) == n,
        n < 10 <==> decimal(n).len() == 1,
    decreases n,
{
    if n >= 10 {
        lemma_decimal_digits(n / 10);
        assert(decimal(n).drop_last() =~= decimal(n / 10));
        assert(n == (n / 10) * 10 + n % 10);
        let last = decimal(n).last();
        assert(last == (48 + n % 10) as u8);
        assert((last - 48) as nat == n % 10);
        assert(digits_value(decimal(n)) == digits_value(decimal(n / 10)) * 10 + ((last - 48) as nat));
    } else {
        assert(decimal(n).drop_last() =~= Seq::<u8>::empty());
        assert(digits_value(Seq::<u8>::empty()) == 0);
        assert(decimal(n).last() == (48 + n) as u8);
    }
}

/// The value of a run of digits grows by one digit at a time.
pub proof fn lemma_digits_value_push(s: Seq<u8>, b: u8)
    ensures
        digits_value(s.push(b)) == digits_value(s) * 10 + ((b - 48) as nat),
{
    assert(s.push(b).drop_last() =~= s);
}

/// Appends `decimal(n)` to `out`.
pub fn push_decimal(out: &mut Vec<u8>, n: u64)
    ensures
        final(out)@ == old(out)@ + decimal(n as nat),
    decreases n,
{
    if n >= 10 {
        push_decimal(out, n / 10);
    }
    let d: u8 = (n % 10) as u8;
    out.push(48 + d);
    proof {
        if n >= 10 {
            assert(decimal(n as nat) == decimal((n / 10) as nat).push((48 + n % 10) as u8));
        }
    }
    assert(final(out)@ =~= old(out)@ + decimal(n as nat)) by {
        if n >= 10 {
            assert(decimal(n as nat) == decimal((n / 10) as nat).push((48 + n % 10) as u8));
        }
    }
}

/// Appends the spelling of a signed integer to `out`.
pub fn push_int(out: &mut Vec<u8>, n: i64)
    ensures
        final(out)@ == old(out)@ + int_decimal(n as int),
{
    if n < 0 {
        out.push(45);
        let m: i128 = -(n as i128);
        let mag: u64 = m as u64;
        push_decimal(out, mag);
        assert(final(out)@ =~= old(out)@ + int_decimal(n as int));
    } else {
        let mag: u64 = n as u64;
        push_decimal(out, mag);
    }
}

/// The lower-case hexadecimal digit for `n < 16`.
pub fn hex_digit_of(n: u8) -> (d: u8)
    requires
        n < 16,
    ensures
        d == hex_digit(n as int),
{
    if n < 10 {
        48 + n
    } else {
        87 + n
    }
}

/// Appends `{:02x}` of a byte to `out`.
pub fn push_hex2(out: &mut Vec<u8>, b: u8)
    ensures
        final(out)@ == old(out)@ + hex2(b),
{
    let hi = hex_digit_of(b / 16);
    let lo = hex_digit_of(b % 16);
    out.push(hi);
    out.push(lo);
    assert(final(out)@ =~= old(out)@ + hex2(b));
}

/// Appends a character to a `String` (std's `String::push`).
#[verifier::external_body]
pub(crate) fn push_char(s: &mut String, c: char)
    ensures
        final(s)@ == old(s)@.push(c),
{
    s.push(c);
}

/// Decodes bytes as UTF-8 (std's `String::from_utf8`): `Ok` exactly when the bytes are
/// valid UTF-8, and then the characters that they encode.
#[verifier::external_body]
pub(crate) fn string_from_utf8(bytes: Vec<u8>) -> (r: Result<String, FromUtf8Error>)
    ensures
        r is Ok <==> valid_utf8(bytes@),
        r matches Ok(s) ==> s@ == decode_utf8(bytes@),
{
    String::from_utf8(bytes)
}

/// The error of `String::from_utf8`, carried through unread.
#[verifier::external_type_specification]
#[verifier::external_body]
pub struct ExFromUtf8Error(FromUtf8Error);

/// What `String::from_utf8_lossy` makes of a byte sequence.
pub uninterp spec fn utf8_lossy(bytes: Seq<u8>) -> Seq<char>;

/// Decodes bytes as UTF-8, putting U+FFFD for every invalid sequence (std's
/// `String::from_utf8_lossy`). Valid UTF-8 comes back as the characters it encodes; what
/// replaces invalid sequences is left to the name `utf8_lossy`.
#[verifier::external_body]
pub(crate) fn string_from_utf8_lossy(bytes: &[u8]) -> (s: String)
    ensures
        s@ == utf8_lossy(bytes@),
        valid_utf8(bytes@) ==> s@ == decode_utf8(bytes@),
{
    String::from_utf8_lossy(bytes).into_owned()
}

/// The characters whose numbers are the given bytes, in order.
pub fn latin1_string(bytes: &[u8]) -> (s: String)
    ensures
        s@ == latin1(bytes@),
{
    let mut s = String::new();
    let mut i: usize = 0;
    while i < bytes.len()
        invariant
            i <= bytes.len(),
            s@ == latin1(bytes@.take(i as int)),
        decreases bytes.len() - i,
    {
        let c: char = bytes[i] as char;
        push_char(&mut s, c);
        assert(latin1(bytes@.take(i + 1)) =~= latin1(bytes@.take(i as int)).push(c));
        i += 1;
    }
    assert(bytes@.take(i as int) =~= bytes@);
    s
}

/* Reading text back */

/// The pieces of `t` between the separators `sep`, in order (one more than there are
/// separators).
pub open spec fn split_at(t: Seq<char>, sep: char) -> Seq<Seq<char>>
    decreases t.len(),
{
    if t.len() == 0 {
        seq![Seq::<char>::empty()]
    } else {
        let f = split_at(t.drop_last(), sep);
        if t.last() == sep {
            f.push(Seq::empty())
        } else {
            f.update(f.len() - 1, f.last().push(t.last()))
        }
    }
}

/// True when every character of `t` is one of `'0'..='9'`.
pub open spec fn digit_chars(t: Seq<char>) -> bool {
    forall|i: int| 0 <= i < t.len() ==> '0' <= #[trigger] t[i] <= '9'
}

/// The number that the decimal digit characters `t` spell.
pub open spec fn digit_chars_value(t: Seq<char>) -> nat
    decreases t.len(),
{
    if t.len() == 0 {
        0
    } else {
        digit_chars_value(t.drop_last()) * 10 + ((t.last() as int - 48) as nat)
    }
}

/// The value of a hexadecimal digit character, either case; -1 for any other character.
pub open spec fn hex_char_value(c: char) -> int {
    if '0' <= c <= '9' {
        c as int - 48
    } else if 'a' <= c <= 'f' {
        c as int - 87
    } else if 'A' <= c <= 'F' {
        c as int - 55
    } else {
        -1
    }
}

/// Splitting never gives an empty list of pieces.
pub proof fn lemma_split_len(t: Seq<char>, sep: char)
    ensures
        split_at(t, sep).len() >= 1,
    decreases t.len(),
{
    if t.len() > 0 {
        lemma_split_len(t.drop_last(), sep);
    }
}

/// Text without a separator extends the last piece.
pub proof fn lemma_split_append(s: Seq<char>, t: Seq<char>, sep: char)
    requires
        forall|i: int| 0 <= i < t.len() ==> t[i] != sep,
    ensures
        split_at(s + t, sep) == split_at(s, sep).update(
            split_at(s, sep).len() - 1,
            split_at(s, sep).last() + t,
        ),
    decreases t.len(),
{
    lemma_split_len(s, sep);
    let f = split_at(s, sep);
    if t.len() == 0 {
        assert(s + t =~= s);
        assert(f.last() + t =~= f.last());
        assert(f.update(f.len() - 1, f.last() + t) =~= f);
    } else {
        let t0 = t.drop_last();
        lemma_split_append(s, t0, sep);
        assert((s + t).drop_last() =~= s + t0);
        assert((s + t).last() == t.last());
        assert(f.last() + t0.push(t.last()) =~= (f.last() + t0).push(t.last()));
        assert(t0.push(t.last()) =~= t);
        assert(split_at(s + t, sep) =~= f.update(f.len() - 1, f.last() + t));
    }
}

/// A separator followed by text without one adds that text as a new piece.
pub proof fn lemma_split_field(s: Seq<char>, t: Seq<char>, sep: char)
    requires
        forall|i: int| 0 <= i < t.len() ==> t[i] != sep,
    ensures
        split_at(s.push(sep) + t, sep) == split_at(s, sep).push(t),
{
    assert(s.push(sep).drop_last() =~= s);
    lemma_split_len(s, sep);
    let g = split_at(s.push(sep), sep);
    assert(g == split_at(s, sep).push(Seq::empty()));
    lemma_split_append(s.push(sep), t, sep);
    assert(Seq::<char>::empty() + t =~= t);
    assert(g.update(g.len() - 1, g.last() + t) =~= split_at(s, sep).push(t));
}

/// Text without a separator is a single piece.
pub proof fn lemma_split_single(t: Seq<char>, sep: char)
    requires
        forall|i: int| 0 <= i < t.len() ==> t[i] != sep,
    ensures
        split_at(t, sep) == seq![t],
{
    lemma_split_append(Seq::empty(), t, sep);
    assert(Seq::<char>::empty() + t =~= t);
    assert(seq![Seq::<char>::empty()].update(0, Seq::<char>::empty() + t) =~= seq![t]);
}

/// The decimal spelling of `n`, read back as characters, is digits that spell `n`.
pub proof fn lemma_decimal_chars(n: nat)
    ensures
        digit_chars(latin1(decimal(n))),
        digit_chars_value(latin1(decimal(n))) == n,
{
    lemma_decimal_digits(n);
    lemma_digit_chars_of(decimal(n));
}

/// ASCII digits read as characters are digit characters with the same value.
proof fn lemma_digit_chars_of(s: Seq<u8>)
    requires
        all_digits(s),
    ensures
        digit_chars(latin1(s)),
        digit_chars_value(latin1(s)) == digits_value(s),
    decreases s.len(),
{
    if s.len() > 0 {
        let s0 = s.drop_last();
        assert forall|i: int| 0 <= i < s0.len() implies is_digit(#[trigger] s0[i]) by {
            assert(s0[i] == s[i]);
        }
        lemma_digit_chars_of(s0);
        assert(latin1(s).drop_last() =~= latin1(s0));
        assert(is_digit(s[s.len() - 1]));
        assert(latin1(s).last() == (s.last() as char));
        assert((s.last() as char) as int == s.last() as int);
    }
    assert forall|i: int| 0 <= i < latin1(s).len() implies '0' <= #[trigger] latin1(s)[i] <= '9' by {
        assert(is_digit(s[i]));
        assert(latin1(s)[i] == (s[i] as char));
    }
}

/// A hexadecimal digit reads back as its value.
pub proof fn lemma_hex_digit_value(n: int)
    requires
        0 <= n < 16,
    ensures
        hex_char_value(hex_digit(n) as char) == n,
{
}

} // verus!
