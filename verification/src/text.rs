//! Text helpers: decimal representation of integers and string comparison.
use vstd::prelude::*;
use vstd::string::StringExecFns;

verus! {

/// The character of decimal digit `d`.
pub open spec fn digit_char(d: int) -> char {
    if d == 0 {
        '0'
    } else if d == 1 {
        '1'
    } else if d == 2 {
        '2'
    } else if d == 3 {
        '3'
    } else if d == 4 {
        '4'
    } else if d == 5 {
        '5'
    } else if d == 6 {
        '6'
    } else if d == 7 {
        '7'
    } else if d == 8 {
        '8'
    } else {
        '9'
    }
}

/// Decimal digits of `n`, most significant first, without leading zeros.
pub open spec fn decimal_nat(n: nat) -> Seq<char>
    decreases n,
{
    if n < 10 {
        seq![digit_char(n as int)]
    } else {
        decimal_nat(n / 10).push(digit_char((n % 10) as int))
    }
}

/// Decimal representation of `v`, with a leading `-` when negative.
pub open spec fn decimal(v: int) -> Seq<char> {
    if v < 0 {
        seq!['-'] + decimal_nat((-v) as nat)
    } else {
        decimal_nat(v as nat)
    }
}

fn digit_str(d: u64) -> (r: &'static str)
    requires
        d < 10,
    ensures
        r@ == seq![digit_char(d as int)],
{
    proof {
        reveal_strlit("0");
        reveal_strlit("1");
        reveal_strlit("2");
        reveal_strlit("3");
        reveal_strlit("4");
        reveal_strlit("5");
        reveal_strlit("6");
        reveal_strlit("7");
        reveal_strlit("8");
        reveal_strlit("9");
    }
    if d == 0 {
        "0"
    } else if d == 1 {
        "1"
    } else if d == 2 {
        "2"
    } else if d == 3 {
        "3"
    } else if d == 4 {
        "4"
    } else if d == 5 {
        "5"
    } else if d == 6 {
        "6"
    } else if d == 7 {
        "7"
    } else if d == 8 {
        "8"
    } else {
        "9"
    }
}

/// Decimal representation of an unsigned number.
pub fn decimal_u64(n: u64) -> (r: String)
    ensures
        r@ == decimal_nat(n as nat),
    decreases n,
{
    if n < 10 {
        String::from_str(digit_str(n))
    } else {
        let mut s = decimal_u64(n / 10);
        s.append(digit_str(n % 10));
        s
    }
}

/// Decimal representation of a signed number.
pub fn decimal_i64(v: i64) -> (r: String)
    ensures
        r@ == decimal(v as int),
{
    if v < 0 {
        let magnitude: u64 = ((-(v + 1)) as u64) + 1;
        proof {
            reveal_strlit("-");
        }
        let mut s = String::from_str("-");
        let digits = decimal_u64(magnitude);
        s.append(digits.as_str());
        s
    } else {
        decimal_u64(v as u64)
    }
}

/// Tells whether two strings hold the same characters.
pub fn str_eq(a: &str, b: &str) -> (r: bool)
    ensures
        r == (a@ == b@),
{
    let a = a.to_owned();
    let b = b.to_owned();
    a == b
}

/// The text `blake3::hash` gives on `bytes`, as `Hash::to_hex` writes it.
pub uninterp spec fn blake3_hex(bytes: Seq<u8>) -> Seq<char>;

/// A lowercase hexadecimal digit.
pub open spec fn is_hex_digit(c: char) -> bool {
    ('0' <= c && c <= '9') || ('a' <= c && c <= 'f')
}

/// The BLAKE3 hash of a trace's bytes (`blake3::hash`), in hexadecimal (`Hash::to_hex`):
/// a function of the bytes, 64 lowercase hexadecimal digits, two for each of the 32 bytes
/// of the hash.
#[verifier::external_body]
pub fn trace_hash(bytes: &Vec<u8>) -> (r: String)
    ensures
        r@ == blake3_hex(bytes@),
        r@.len() == 64,
        forall|i: int| 0 <= i < r@.len() ==> is_hex_digit(#[trigger] r@[i]),
{
    blake3::hash(bytes.as_slice()).to_hex().to_string()
}

} // verus!
