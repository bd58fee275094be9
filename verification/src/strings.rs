//! String building blocks: appending characters and text, and the decimal
//! and hexadecimal renderings the serializers emit.

use vstd::prelude::*;
use vstd::string::StringExecFns;

verus! {

/// `String::push`: appends one character.
#[verifier::external_body]
pub(crate) fn push_char(s: &mut String, c: char)
    ensures
        final(s)@ == old(s)@.push(c),
{
    s.push(c);
}

/// Appends `t` to `s`.
pub fn push_str(s: &mut String, t: &str)
    ensures
        final(s)@ == old(s)@ + t@,
{
    s.append(t);
}

/// Appends every character of `v` to `s`.
pub fn push_chars(s: &mut String, v: &Vec<char>)
    ensures
        final(s)@ == old(s)@ + v@,
{
    let ghost s0 = s@;
    for i in 0..v.len()
        invariant
            s@ == s0 + v@.take(i as int),
    {
        push_char(s, v[i]);
        assert(v@.take(i + 1) == v@.take(i as int).push(v@[i as int]));
    }
    assert(v@.take(v.len() as int) == v@);
}

/// Appends `v[a..b]` to `s`.
pub fn push_range(s: &mut String, v: &Vec<char>, a: usize, b: usize)
    requires
        a <= b <= v@.len(),
    ensures
        final(s)@ == old(s)@ + v@.subrange(a as int, b as int),
{
    let ghost s0 = s@;
    let mut i = a;
    while i < b
        invariant
            a <= i <= b <= v@.len(),
            s@ == s0 + v@.subrange(a as int, i as int),
        decreases b - i,
    {
        push_char(s, v[i]);
        assert(v@.subrange(a as int, i + 1) == v@.subrange(a as int, i as int).push(v@[i as int]));
        i = i + 1;
    }
}

/// The character sequences of a list of strings.
pub open spec fn str_views(v: Seq<String>) -> Seq<Seq<char>> {
    v.map_values(|t: String| t@)
}

/// The string whose characters are `v`.
pub fn string_from(v: &Vec<char>) -> (s: String)
    ensures
        s@ == v@,
{
    let mut s = String::new();
    push_chars(&mut s, v);
    s
}

/// The decimal digit character for `d < 10`.
pub open spec fn digit(d: nat) -> char {
    if d == 0 { '0' }
    else if d == 1 { '1' }
    else if d == 2 { '2' }
    else if d == 3 { '3' }
    else if d == 4 { '4' }
    else if d == 5 { '5' }
    else if d == 6 { '6' }
    else if d == 7 { '7' }
    else if d == 8 { '8' }
    else { '9' }
}

/// The lowercase hexadecimal digit character for `d < 16`.
pub open spec fn hex_digit(d: nat) -> char {
    if d < 10 { digit(d) }
    else if d == 10 { 'a' }
    else if d == 11 { 'b' }
    else if d == 12 { 'c' }
    else if d == 13 { 'd' }
    else if d == 14 { 'e' }
    else { 'f' }
}

/// Decimal rendering of `n` without leading zeros (`"0"` for zero).
pub open spec fn dec(n: nat) -> Seq<char>
    decreases n,
{
    if n < 10 {
        seq![digit(n)]
    } else {
        dec(n / 10).push(digit(n % 10))
    }
}

/// The last `width` hexadecimal digits of `n`, zero-padded.
pub open spec fn hex_fixed(n: nat, width: nat) -> Seq<char>
    decreases width,
{
    if width == 0 {
        seq![]
    } else {
        hex_fixed(n / 16, (width - 1) as nat).push(hex_digit(n % 16))
    }
}

pub fn hex_digit_char(d: u64) -> (c: char)
    requires
        d < 16,
    ensures
        c == hex_digit(d as nat),
{
    if d == 0 { '0' }
    else if d == 1 { '1' }
    else if d == 2 { '2' }
    else if d == 3 { '3' }
    else if d == 4 { '4' }
    else if d == 5 { '5' }
    else if d == 6 { '6' }
    else if d == 7 { '7' }
    else if d == 8 { '8' }
    else if d == 9 { '9' }
    else if d == 10 { 'a' }
    else if d == 11 { 'b' }
    else if d == 12 { 'c' }
    else if d == 13 { 'd' }
    else if d == 14 { 'e' }
    else { 'f' }
}

/// Appends the decimal rendering of `n`.
pub fn push_dec(s: &mut String, n: u64)
    ensures
        final(s)@ == old(s)@ + dec(n as nat),
    decreases n,
{
    if n >= 10 {
        push_dec(s, n / 10);
    }
    push_char(s, hex_digit_char(n % 10));
}

/// The decimal rendering of `n`.
pub fn dec_string(n: u64) -> (s: String)
    ensures
        s@ == dec(n as nat),
{
    let mut s = String::new();
    push_dec(&mut s, n);
    s
}

/// Appends the last `width` hexadecimal digits of `n`, zero-padded.
pub fn push_hex_fixed(s: &mut String, n: u128, width: u32)
    ensures
        final(s)@ == old(s)@ + hex_fixed(n as nat, width as nat),
    decreases width,
{
    if width > 0 {
        push_hex_fixed(s, n / 16, width - 1);
        push_char(s, hex_digit_char((n % 16) as u64));
    }
}


/// Canonical hyphenated lowercase rendering of a 128-bit identifier
/// (8-4-4-4-12 hexadecimal digits).
pub open spec fn uuid_text(id: u128) -> Seq<char> {
    hex_fixed(id as nat / 0x1_0000_0000_0000_0000_0000_0000, 8) + seq!['-'] + hex_fixed(
        id as nat / 0x1_0000_0000_0000_0000_0000,
        4,
    ) + seq!['-'] + hex_fixed(id as nat / 0x1_0000_0000_0000_0000, 4) + seq!['-'] + hex_fixed(
        id as nat / 0x1_0000_0000_0000,
        4,
    ) + seq!['-'] + hex_fixed(id as nat, 12)
}

/// Appends [`uuid_text`] of `id`.
pub fn push_uuid(s: &mut String, id: u128)
    ensures
        final(s)@ == old(s)@ + uuid_text(id),
{
    let ghost s0 = s@;
    push_hex_fixed(s, id / 0x1_0000_0000_0000_0000_0000_0000, 8);
    push_char(s, '-');
    push_hex_fixed(s, id / 0x1_0000_0000_0000_0000_0000, 4);
    push_char(s, '-');
    push_hex_fixed(s, id / 0x1_0000_0000_0000_0000, 4);
    push_char(s, '-');
    push_hex_fixed(s, id / 0x1_0000_0000_0000, 4);
    push_char(s, '-');
    push_hex_fixed(s, id, 12);
    assert(s@ =~= s0 + uuid_text(id));
}

} // verus!
