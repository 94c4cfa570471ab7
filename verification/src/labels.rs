//! The key labels: which key a keycode stands for.

use vstd::prelude::*;
use vstd::std_specs::iter::IteratorSpec;
use vstd::string::*;

verus! {

/// Whether `c` is one of the decimal digits `0` to `9`.
pub open spec fn is_digit(c: char) -> bool {
    '0' <= c <= '9'
}

/// The value of the decimal digit `c`.
pub open spec fn digit_value(c: char) -> nat {
    (c as u32 - '0' as u32) as nat
}

/// The number that a keycode stands for. A keycode is written with exactly two
/// decimal digits; any other text is no keycode.
pub open spec fn keycode_number(code: Seq<char>) -> Option<nat> {
    if code.len() == 2 && is_digit(code[0]) && is_digit(code[1]) {
        Some(10 * digit_value(code[0]) + digit_value(code[1]))
    } else {
        None
    }
}

/// The label table, by keycode number.
pub open spec fn label_of_number(n: nat) -> Option<char> {
    if n == 24 {
        Some('q')
    } else if n == 25 {
        Some('w')
    } else if n == 26 {
        Some('e')
    } else if n == 27 {
        Some('r')
    } else if n == 28 {
        Some('t')
    } else if n == 29 {
        Some('y')
    } else if n == 30 {
        Some('u')
    } else if n == 31 {
        Some('i')
    } else if n == 32 {
        Some('o')
    } else if n == 33 {
        Some('p')
    } else if n == 34 {
        Some('{')
    } else if n == 35 {
        Some('}')
    } else if n == 38 {
        Some('a')
    } else if n == 39 {
        Some('s')
    } else if n == 40 {
        Some('d')
    } else if n == 41 {
        Some('f')
    } else if n == 42 {
        Some('g')
    } else if n == 43 {
        Some('h')
    } else if n == 44 {
        Some('j')
    } else if n == 45 {
        Some('k')
    } else if n == 46 {
        Some('l')
    } else if n == 47 {
        Some(';')
    } else if n == 48 {
        Some('\'')
    } else if n == 49 {
        Some('`')
    } else if n == 52 {
        Some('z')
    } else if n == 54 {
        Some('x')
    } else if n == 56 {
        Some('c')
    } else if n == 58 {
        Some('v')
    } else if n == 60 {
        Some('b')
    } else if n == 62 {
        Some('n')
    } else if n == 64 {
        Some('m')
    } else if n == 66 {
        Some(',')
    } else if n == 68 {
        Some('?')
    } else {
        None
    }
}

/// The label of the key that `code` stands for, if the table knows the keycode.
pub open spec fn label_of(code: Seq<char>) -> Option<char> {
    match keycode_number(code) {
        Some(n) => label_of_number(n),
        None => None,
    }
}

/// Looks a keycode number up in the label table.
pub fn number_label(n: u8) -> (label: Option<char>)
    ensures
        label == label_of_number(n as nat),
{
    match n {
        24 => Some('q'),
        25 => Some('w'),
        26 => Some('e'),
        27 => Some('r'),
        28 => Some('t'),
        29 => Some('y'),
        30 => Some('u'),
        31 => Some('i'),
        32 => Some('o'),
        33 => Some('p'),
        34 => Some('{'),
        35 => Some('}'),
        38 => Some('a'),
        39 => Some('s'),
        40 => Some('d'),
        41 => Some('f'),
        42 => Some('g'),
        43 => Some('h'),
        44 => Some('j'),
        45 => Some('k'),
        46 => Some('l'),
        47 => Some(';'),
        48 => Some('\''),
        49 => Some('`'),
        52 => Some('z'),
        54 => Some('x'),
        56 => Some('c'),
        58 => Some('v'),
        60 => Some('b'),
        62 => Some('n'),
        64 => Some('m'),
        66 => Some(','),
        68 => Some('?'),
        _ => None,
    }
}

/// The value of `c` as a decimal digit, if it is one.
pub fn digit_of(c: char) -> (d: Option<u8>)
    ensures
        d is Some == is_digit(c),
        d matches Some(v) ==> v == digit_value(c) && v <= 9,
{
    if '0' <= c && c <= '9' {
        Some((c as u32 - '0' as u32) as u8)
    } else {
        None
    }
}

/// The label of the key that `code` stands for, or `None` for a keycode that the
/// table does not know.
pub fn key_label(code: &str) -> (label: Option<char>)
    ensures
        label == label_of(code@),
{
    let mut it = code.chars();
    let first = it.next();
    let second = it.next();
    let third = it.next();
    match (first, second, third) {
        (Some(a), Some(b), None) => match (digit_of(a), digit_of(b)) {
            (Some(tens), Some(ones)) => number_label(10 * tens + ones),
            _ => None,
        },
        _ => None,
    }
}

} // verus!
