use trigram_index::fold::explain;
use trigram_index::fold::simplify;

#[test]
fn symbol_surjection_on_regular_symbols() {
    // For every symbol except the three buckets 0, 1 and 63, folding
    // the display character recovers the symbol.
    for s in 2u8..63u8 {
        assert_eq!(simplify(explain(s)), s, "symbol {}", s);
    }
}

#[test]
fn bucket_symbols_fold_to_letter_codes() {
    // The display characters of the bucket symbols are ordinary
    // letters and fold to letter symbols, not back to the bucket.
    assert_eq!(explain(0), 'X');
    assert_eq!(simplify('X'), 54);
    assert_eq!(explain(1), 'N');
    assert_eq!(simplify('N'), 44);
    assert_eq!(explain(63), 'U');
    assert_eq!(simplify('U'), 50);
}

#[test]
fn lowercase_folds_to_uppercase() {
    for c in b'a'..=b'z' {
        let lower = c as char;
        let upper = (c - b'a' + b'A') as char;
        assert_eq!(simplify(lower), simplify(upper), "letter {}", lower);
    }
}

#[test]
fn ascii_table_spot_checks() {
    assert_eq!(simplify('\r'), 1);
    assert_eq!(simplify('\n'), 1);
    assert_eq!(simplify('\t'), 2);
    assert_eq!(simplify(' '), 2);
    assert_eq!(simplify('!'), 3);
    assert_eq!(simplify('"'), 4);
    assert_eq!(simplify('\''), 4);
    assert_eq!(simplify('`'), 4);
    assert_eq!(simplify('$'), 5);
    assert_eq!(simplify('%'), 6);
    assert_eq!(simplify('&'), 7);
    assert_eq!(simplify('('), 8);
    assert_eq!(simplify('@'), 32);
    assert_eq!(simplify('A'), 33);
    assert_eq!(simplify('I'), 41);
    assert_eq!(simplify('J'), 54);
    assert_eq!(simplify('K'), 54);
    assert_eq!(simplify('L'), 42);
    assert_eq!(simplify('P'), 46);
    assert_eq!(simplify('Q'), 54);
    assert_eq!(simplify('R'), 47);
    assert_eq!(simplify('W'), 52);
    assert_eq!(simplify('X'), 54);
    assert_eq!(simplify('Y'), 53);
    assert_eq!(simplify('Z'), 54);
    assert_eq!(simplify('['), 55);
    assert_eq!(simplify('\\'), 56);
    assert_eq!(simplify(']'), 57);
    assert_eq!(simplify('^'), 58);
    assert_eq!(simplify('~'), 58);
    assert_eq!(simplify('#'), 58);
    assert_eq!(simplify('_'), 59);
    assert_eq!(simplify('{'), 60);
    assert_eq!(simplify('|'), 61);
    assert_eq!(simplify('}'), 62);
    assert_eq!(simplify('\0'), 0);
}

#[test]
fn wide_characters_fall_into_buckets() {
    // whitespace above U+0080
    assert_eq!(simplify('\u{00A0}'), 2);
    assert_eq!(simplify('\u{2003}'), 2);
    assert_eq!(simplify('\u{3000}'), 2);
    // controls above U+0080
    assert_eq!(simplify('\u{0081}'), 0);
    assert_eq!(simplify('\u{009F}'), 0);
    // U+0085 is both; whitespace wins
    assert_eq!(simplify('\u{0085}'), 2);
    // everything else
    assert_eq!(simplify('é'), 63);
    assert_eq!(simplify('日'), 63);
}
