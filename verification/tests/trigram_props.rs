use trigram_index::trigram::pack;
use trigram_index::trigram::trigrams_for;
use trigram_index::trigram::trigrams_full;
use trigram_index::trigram::unpack;
use trigram_index::trigram::CharResult;

fn items_of(s: &str) -> Vec<CharResult> {
    s.chars().map(Ok).collect()
}

fn expect_err(r: Result<trigram_index::bitset::TrigramSet, String>) -> String {
    match r {
        Ok(_) => panic!("expected an error"),
        Err(e) => e,
    }
}

#[test]
fn packing_round_trip() {
    // Unpacking 4096 a + 64 b + c recovers (a, b, c).
    for &(a, b, c) in &[(0u32, 0u32, 0u32), (1, 2, 3), (63, 63, 63), (38, 45, 45), (7, 0, 63)] {
        let t = pack(a as u8, b as u8, c as u8);
        assert_eq!(t, 4096 * a + 64 * b + c);
        assert_eq!(t / 4096 % 64, a);
        assert_eq!(t / 64 % 64, b);
        assert_eq!(t % 64, c);
    }
}

#[test]
fn unpack_shows_display_characters() {
    // 158573 packs the symbols of "foo".
    assert_eq!(unpack(158573), "foo");
    assert_eq!(unpack(38), "XXf");
    assert_eq!(unpack(2477), "Xfo");
}

#[test]
fn trigrams_of_small_text() {
    // "foo\n" yields the four padded windows and nothing else.
    let set = trigrams_for(&items_of("foo\n")).unwrap();
    let v = set.to_vec();
    assert_eq!(v, vec![38, 2477, 158573, 187201]);
}

#[test]
fn empty_and_short_streams() {
    let set = trigrams_for(&items_of("")).unwrap();
    assert_eq!(set.to_vec(), Vec::<usize>::new());
    // one char still emits one padded trigram
    let set = trigrams_for(&items_of("a")).unwrap();
    assert_eq!(set.to_vec(), vec![33]);
    // two chars emit two padded trigrams
    let set = trigrams_for(&items_of("ab")).unwrap();
    assert_eq!(set.to_vec(), vec![33, 33 * 64 + 34]);
}

#[test]
fn nul_byte_rejected() {
    let err = expect_err(trigrams_for(&items_of("ab\0c")));
    assert_eq!(err, "line 1: null found: not a text file");
    assert!(err.contains("null found"));
}

#[test]
fn nul_byte_line_counting() {
    let err = expect_err(trigrams_for(&items_of("a\n\nb\0")));
    assert_eq!(err, "line 3: null found: not a text file");
}

#[test]
fn decode_failure_reported_with_position() {
    let items: Vec<CharResult> = vec![Ok('x'), Ok('\n'), Err("bad byte".to_string())];
    let err = expect_err(trigrams_for(&items));
    assert_eq!(err, "line 2: file char 2: failed: bad byte");
}

#[test]
fn trigramming_deterministic_over_extension() {
    // Every trigram of a text occurs in every extension of it.
    let base = trigrams_for(&items_of("abc")).unwrap();
    let ext = trigrams_for(&items_of("abcxyz")).unwrap();
    for t in base.to_vec() {
        assert!(ext.contains(t));
    }
    // and twice over the same text gives the same set
    let again = trigrams_for(&items_of("abc")).unwrap();
    assert_eq!(base.to_vec(), again.to_vec());
}

#[test]
fn full_windows_only() {
    assert_eq!(trigrams_full(""), Vec::<u32>::new());
    assert_eq!(trigrams_full("ab"), Vec::<u32>::new());
    // "foobar" has four unpadded windows
    assert_eq!(trigrams_full("foobar"), vec![141423, 158573, 186529, 187234]);
    // repeated windows are deduplicated
    assert_eq!(trigrams_full("aaaa"), vec![4096 * 33 + 64 * 33 + 33]);
}
