use vstd::prelude::*;

verus! {

/// `String::push`.
#[verifier::external_body]
pub(crate) fn push_char(s: &mut String, c: char)
    ensures
        final(s)@ == old(s)@.push(c),
{
    s.push(c);
}

/// The lowercase hexadecimal digit for `d < 16`.
pub open spec fn hex_digit(d: nat) -> char {
    if d == 0 { '0' } else if d == 1 { '1' } else if d == 2 { '2' } else if d == 3 { '3' }
    else if d == 4 { '4' } else if d == 5 { '5' } else if d == 6 { '6' } else if d == 7 { '7' }
    else if d == 8 { '8' } else if d == 9 { '9' } else if d == 10 { 'a' } else if d == 11 { 'b' }
    else if d == 12 { 'c' } else if d == 13 { 'd' } else if d == 14 { 'e' } else { 'f' }
}

/// The decimal digit for `d < 10`.
pub open spec fn dec_digit(d: nat) -> char {
    hex_digit(d)
}

/// The hexadecimal digits of `n`, most significant first, without leading zeros.
pub open spec fn hex_digits(n: nat) -> Seq<char>
    decreases n,
{
    if n < 16 {
        seq![hex_digit(n)]
    } else {
        hex_digits(n / 16).push(hex_digit(n % 16))
    }
}

/// The decimal digits of `n`, most significant first, without leading zeros.
pub open spec fn dec_digits(n: nat) -> Seq<char>
    decreases n,
{
    if n < 10 {
        seq![dec_digit(n)]
    } else {
        dec_digits(n / 10).push(dec_digit(n % 10))
    }
}

/// `n` as Rust's `{:#x}` writes it.
pub open spec fn hex_text(n: nat) -> Seq<char> {
    "0x"@ + hex_digits(n)
}

/// `n` as Rust's `{}` writes it.
pub open spec fn dec_text(n: nat) -> Seq<char> {
    dec_digits(n)
}

fn hex_digit_char(d: u64) -> (c: char)
    requires
        d < 16,
    ensures
        c == hex_digit(d as nat),
{
    if d == 0 { '0' } else if d == 1 { '1' } else if d == 2 { '2' } else if d == 3 { '3' }
    else if d == 4 { '4' } else if d == 5 { '5' } else if d == 6 { '6' } else if d == 7 { '7' }
    else if d == 8 { '8' } else if d == 9 { '9' } else if d == 10 { 'a' } else if d == 11 { 'b' }
    else if d == 12 { 'c' } else if d == 13 { 'd' } else if d == 14 { 'e' } else { 'f' }
}

/// Appends the hexadecimal digits of `n`.
pub fn push_hex_digits(s: &mut String, n: u64)
    ensures
        final(s)@ == old(s)@ + hex_digits(n as nat),
    decreases n,
{
    if n >= 16 {
        push_hex_digits(s, n / 16);
    }
    push_char(s, hex_digit_char(n % 16));
    proof {
        assert(old(s)@ + hex_digits(n as nat) =~= final(s)@) by {
            if n >= 16 {
                assert(hex_digits(n as nat) == hex_digits((n / 16) as nat).push(hex_digit((n % 16) as nat)));
            }
        }
    }
}

/// Appends the decimal digits of `n`.
pub fn push_dec_digits(s: &mut String, n: u64)
    ensures
        final(s)@ == old(s)@ + dec_digits(n as nat),
    decreases n,
{
    if n >= 10 {
        push_dec_digits(s, n / 10);
    }
    push_char(s, hex_digit_char(n % 10));
    proof {
        assert(old(s)@ + dec_digits(n as nat) =~= final(s)@) by {
            if n >= 10 {
                assert(dec_digits(n as nat) == dec_digits((n / 10) as nat).push(dec_digit((n % 10) as nat)));
            }
        }
    }
}

/// `n` as `{:#x}` writes it.
pub fn hex_string(n: u64) -> (res: String)
    ensures
        res@ == hex_text(n as nat),
{
    let mut s = String::from_str("0x");
    proof {
        reveal_strlit("0x");
    }
    push_hex_digits(&mut s, n);
    s
}

/// `n` as `{}` writes it.
pub fn dec_string(n: u64) -> (res: String)
    ensures
        res@ == dec_text(n as nat),
{
    let mut s = String::new();
    push_dec_digits(&mut s, n);
    proof {
        assert(s@ =~= dec_text(n as nat));
    }
    s
}

} // verus!
