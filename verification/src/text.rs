use vstd::prelude::*;

verus! {

/// `String::push`: appends one character.
#[verifier::external_body]
pub fn push_char(s: &mut String, c: char)
    ensures
        final(s)@ == old(s)@.push(c),
{
    s.push(c);
}

/// The decimal digits of `n`, most significant first.
pub open spec fn decimal_chars(n: nat) -> Seq<char>
    decreases n,
{
    if n < 10 {
        seq![digit_char(n)]
    } else {
        decimal_chars(n / 10).push(digit_char(n % 10))
    }
}

/// The character of a decimal digit.
pub open spec fn digit_char(d: nat) -> char {
    ((d + 48) as u8) as char
}

/// The upper-case hexadecimal digits of `n`, most significant first.
pub open spec fn hex_chars(n: nat) -> Seq<char>
    decreases n,
{
    if n < 16 {
        seq![hex_digit_char(n)]
    } else {
        hex_chars(n / 16).push(hex_digit_char(n % 16))
    }
}

/// The character of a hexadecimal digit, letters upper case.
pub open spec fn hex_digit_char(d: nat) -> char {
    if d < 10 {
        ((d + 48) as u8) as char
    } else {
        ((d + 55) as u8) as char
    }
}

fn digit(d: u64, base: u64) -> (c: char)
    requires
        d < base,
        base == 10 || base == 16,
    ensures
        base == 10 ==> c == digit_char(d as nat),
        base == 16 ==> c == hex_digit_char(d as nat),
{
    if d < 10 {
        ((d as u8) + 48) as char
    } else {
        ((d as u8) + 55) as char
    }
}

/// Appends the digits of `n` in base `base` to `s`.
fn push_digits(s: &mut String, n: u64, base: u64)
    requires
        base == 10 || base == 16,
    ensures
        base == 10 ==> final(s)@ == old(s)@ + decimal_chars(n as nat),
        base == 16 ==> final(s)@ == old(s)@ + hex_chars(n as nat),
    decreases n,
{
    if n < base {
        let c = digit(n, base);
        push_char(s, c);
        assert(seq![c] =~= Seq::<char>::empty().push(c));
    } else {
        push_digits(s, n / base, base);
        let c = digit(n % base, base);
        push_char(s, c);
        proof {
            if base == 10 {
                assert(old(s)@ + decimal_chars(n as nat) =~= old(s)@ + decimal_chars(
                    (n / base) as nat,
                ) + seq![c]);
            } else {
                assert(old(s)@ + hex_chars(n as nat) =~= old(s)@ + hex_chars((n / base) as nat)
                    + seq![c]);
            }
        }
    }
}

/// `n` written in decimal.
pub fn decimal_string(n: u64) -> (s: String)
    ensures
        s@ == decimal_chars(n as nat),
{
    let mut s = String::new();
    push_digits(&mut s, n, 10);
    assert(Seq::<char>::empty() + decimal_chars(n as nat) =~= decimal_chars(n as nat));
    s
}

/// `n` written in upper-case hexadecimal.
pub fn hex_string(n: u64) -> (s: String)
    ensures
        s@ == hex_chars(n as nat),
{
    let mut s = String::new();
    push_digits(&mut s, n, 16);
    assert(Seq::<char>::empty() + hex_chars(n as nat) =~= hex_chars(n as nat));
    s
}

/// The ASCII upper-case form of `c`; other characters are returned unchanged.
pub open spec fn upper_char(c: char) -> char {
    if 'a' <= c && c <= 'z' {
        ((c as u32 - 32) as u8) as char
    } else {
        c
    }
}

/// ASCII upper-casing of one character.
pub fn to_upper_char(c: char) -> (r: char)
    ensures
        r == upper_char(c),
{
    if 'a' <= c && c <= 'z' {
        ((c as u32 - 32) as u8) as char
    } else {
        c
    }
}

} // verus!
