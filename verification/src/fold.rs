//! Folding of Unicode scalars into the 64-symbol index alphabet.
//!
//! Letter case is collapsed, the rare letters J, K, Q, X and Z share one
//! bucket, and everything above U+0080 falls into three coarse buckets
//! (whitespace, control, other).  A symbol fits in 6 bits, so a trigram
//! of symbols fits in 18 bits.

use vstd::prelude::*;

verus! {

/// Unicode scalars above U+0080 with the White_Space property.
pub open spec fn wide_whitespace(n: int) -> bool {
    n == 0x85 || n == 0xA0 || n == 0x1680 || (0x2000 <= n && n <= 0x200A) || n == 0x2028 || n
        == 0x2029 || n == 0x202F || n == 0x205F || n == 0x3000
}

/// Unicode scalars above U+0080 in the Cc (control) category.
pub open spec fn wide_control(n: int) -> bool {
    0x81 <= n && n <= 0x9F
}

/// The symbol assigned to the code point `n`, assuming lower-case
/// letters have already been folded to upper case.
pub open spec fn fold_code(n: int) -> int {
    if n > 128 {
        if wide_whitespace(n) {
            2
        } else if wide_control(n) {
            0
        } else {
            63
        }
    } else if n == 13 || n == 10 {
        1
    } else if n == 9 || n == 11 || n == 12 || n == 32 {
        2
    } else if n == 33 {
        3
    } else if n == 34 || n == 39 || n == 96 {
        4
    } else if n == 36 {
        5
    } else if n == 37 {
        6
    } else if n == 38 {
        7
    } else if 40 <= n && n <= 64 {
        8 + (n - 40)
    } else if 65 <= n && n <= 73 {
        33 + (n - 65)
    } else if n == 74 || n == 75 || n == 81 || n == 88 || n == 90 {
        54
    } else if 76 <= n && n <= 80 {
        31 + (n - 65)
    } else if 82 <= n && n <= 87 {
        30 + (n - 65)
    } else if n == 89 {
        53
    } else if n == 91 {
        55
    } else if n == 92 {
        56
    } else if n == 93 {
        57
    } else if n == 94 || n == 126 || n == 35 {
        58
    } else if n == 95 {
        59
    } else if 123 <= n && n <= 125 {
        60 + (n - 123)
    } else {
        0
    }
}

/// The symbol of a character: fold lower-case ASCII to upper case,
/// then apply the code table.
pub open spec fn sym_spec(c: char) -> int {
    let n = c as int;
    if 97 <= n && n <= 122 {
        fold_code(n - 32)
    } else {
        fold_code(n)
    }
}

/// Maps a character to its 6-bit symbol.
pub fn simplify(c: char) -> (r: u8)
    ensures
        r as int == sym_spec(c),
        r < 64,
{
    let n0: u32 = c as u32;
    let n: u32 = if 97 <= n0 && n0 <= 122 {
        n0 - 32
    } else {
        n0
    };
    if n > 128 {
        if n == 0x85 || n == 0xA0 || n == 0x1680 || (0x2000 <= n && n <= 0x200A) || n == 0x2028
            || n == 0x2029 || n == 0x202F || n == 0x205F || n == 0x3000 {
            2
        } else if n <= 0x9F {
            0
        } else {
            63
        }
    } else if n == 13 || n == 10 {
        1
    } else if n == 9 || n == 11 || n == 12 || n == 32 {
        2
    } else if n == 33 {
        3
    } else if n == 34 || n == 39 || n == 96 {
        4
    } else if n == 36 {
        5
    } else if n == 37 {
        6
    } else if n == 38 {
        7
    } else if 40 <= n && n <= 64 {
        (8 + (n - 40)) as u8
    } else if 65 <= n && n <= 73 {
        (33 + (n - 65)) as u8
    } else if n == 74 || n == 75 || n == 81 || n == 88 || n == 90 {
        54
    } else if 76 <= n && n <= 80 {
        (31 + (n - 65)) as u8
    } else if 82 <= n && n <= 87 {
        (30 + (n - 65)) as u8
    } else if n == 89 {
        53
    } else if n == 91 {
        55
    } else if n == 92 {
        56
    } else if n == 93 {
        57
    } else if n == 94 || n == 126 || n == 35 {
        58
    } else if n == 95 {
        59
    } else if 123 <= n && n <= 125 {
        (60 + (n - 123)) as u8
    } else {
        0
    }
}

/// The canonical display character of a symbol.
pub open spec fn explain_spec(s: u8) -> char {
    match s {
        0u8 => 'X',
        1u8 => 'N',
        2u8 => ' ',
        3u8 => '!',
        4u8 => '"',
        5u8 => '$',
        6u8 => '%',
        7u8 => '&',
        8u8 => '(',
        9u8 => ')',
        10u8 => '*',
        11u8 => '+',
        12u8 => ',',
        13u8 => '-',
        14u8 => '.',
        15u8 => '/',
        16u8 => '0',
        17u8 => '1',
        18u8 => '2',
        19u8 => '3',
        20u8 => '4',
        21u8 => '5',
        22u8 => '6',
        23u8 => '7',
        24u8 => '8',
        25u8 => '9',
        26u8 => ':',
        27u8 => ';',
        28u8 => '<',
        29u8 => '=',
        30u8 => '>',
        31u8 => '?',
        32u8 => '@',
        33u8 => 'a',
        34u8 => 'b',
        35u8 => 'c',
        36u8 => 'd',
        37u8 => 'e',
        38u8 => 'f',
        39u8 => 'g',
        40u8 => 'h',
        41u8 => 'i',
        42u8 => 'l',
        43u8 => 'm',
        44u8 => 'n',
        45u8 => 'o',
        46u8 => 'p',
        47u8 => 'r',
        48u8 => 's',
        49u8 => 't',
        50u8 => 'u',
        51u8 => 'v',
        52u8 => 'w',
        53u8 => 'y',
        54u8 => 'X',
        55u8 => '[',
        56u8 => '\\',
        57u8 => ']',
        58u8 => '#',
        59u8 => '_',
        60u8 => '{',
        61u8 => '|',
        62u8 => '}',
        63u8 => 'U',
        _ => 'D',
    }
}

/// Maps a symbol to its canonical display character.
pub fn explain(s: u8) -> (r: char)
    ensures
        r == explain_spec(s),
{
    match s {
        0u8 => 'X',
        1u8 => 'N',
        2u8 => ' ',
        3u8 => '!',
        4u8 => '"',
        5u8 => '$',
        6u8 => '%',
        7u8 => '&',
        8u8 => '(',
        9u8 => ')',
        10u8 => '*',
        11u8 => '+',
        12u8 => ',',
        13u8 => '-',
        14u8 => '.',
        15u8 => '/',
        16u8 => '0',
        17u8 => '1',
        18u8 => '2',
        19u8 => '3',
        20u8 => '4',
        21u8 => '5',
        22u8 => '6',
        23u8 => '7',
        24u8 => '8',
        25u8 => '9',
        26u8 => ':',
        27u8 => ';',
        28u8 => '<',
        29u8 => '=',
        30u8 => '>',
        31u8 => '?',
        32u8 => '@',
        33u8 => 'a',
        34u8 => 'b',
        35u8 => 'c',
        36u8 => 'd',
        37u8 => 'e',
        38u8 => 'f',
        39u8 => 'g',
        40u8 => 'h',
        41u8 => 'i',
        42u8 => 'l',
        43u8 => 'm',
        44u8 => 'n',
        45u8 => 'o',
        46u8 => 'p',
        47u8 => 'r',
        48u8 => 's',
        49u8 => 't',
        50u8 => 'u',
        51u8 => 'v',
        52u8 => 'w',
        53u8 => 'y',
        54u8 => 'X',
        55u8 => '[',
        56u8 => '\\',
        57u8 => ']',
        58u8 => '#',
        59u8 => '_',
        60u8 => '{',
        61u8 => '|',
        62u8 => '}',
        63u8 => 'U',
        _ => 'D',
    }
}

/// Folding a symbol's display character recovers the symbol, except for
/// the three bucket symbols 0, 1 and 63, whose display characters 'X',
/// 'N' and 'U' are ordinary letters and fold to letter symbols.
pub proof fn lemma_symbol_surjection(s: u8)
    requires
        s < 64,
        s != 0,
        s != 1,
        s != 63,
    ensures
        sym_spec(explain_spec(s)) == s as int,
{
}

/// Folding is case-insensitive: a lower-case ASCII letter and its
/// upper-case counterpart get the same symbol.
pub proof fn lemma_lowercase_fold(c: char, u: char)
    requires
        'a' as int <= c as int <= 'z' as int,
        u as int == c as int - 32,
    ensures
        sym_spec(c) == sym_spec(u),
{
}

} // verus!
