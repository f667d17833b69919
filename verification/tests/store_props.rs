use trigram_index::store::Index;
use trigram_index::store::StoreError;
use trigram_index::trigram::trigrams_for;
use trigram_index::trigram::CharResult;

fn items_of(s: &str) -> Vec<CharResult> {
    s.chars().map(Ok).collect()
}

#[test]
fn fresh_store_shape() {
    let idx = Index::create();
    assert_eq!(idx.free_page(), 2);
    assert_eq!(idx.num_pages(), 2);
    for t in [0u32, 7, 262143] {
        assert_eq!(idx.directory_entry(t), 0);
        assert_eq!(idx.posting_list(t), Vec::<u64>::new());
    }
}

#[test]
fn simple_mode_small_text() {
    // Indexing "foo\n" as document 42 marks exactly its four
    // trigrams, each with the posting list [42].
    let mut idx = Index::create();
    let set = trigrams_for(&items_of("foo\n")).unwrap();
    idx.append_trigrams(&set, 42);
    let expected: Vec<u32> = vec![38, 2477, 158573, 187201];
    for &t in &expected {
        assert_ne!(idx.directory_entry(t), 0, "trigram {}", t);
        assert_eq!(idx.posting_list(t), vec![42u64]);
    }
    for t in 0u32..262144 {
        if !expected.contains(&t) {
            assert_eq!(idx.directory_entry(t), 0, "trigram {}", t);
        }
    }
}

#[test]
fn rejected_text_leaves_store_untouched() {
    // A NUL in the text fails trigramming; nothing is appended.
    let mut idx = Index::create();
    let before: Vec<u64> = (0..idx.num_pages() * 1024).map(|i| idx.page_word(i)).collect();
    match trigrams_for(&items_of("ab\0c")) {
        Err(e) => assert!(e.contains("null found")),
        Ok(_) => panic!("NUL text must not trigram"),
    }
    let after: Vec<u64> = (0..idx.num_pages() * 1024).map(|i| idx.page_word(i)).collect();
    assert_eq!(before, after);
}

#[test]
fn chain_overflow_writes_forward_pointer() {
    // 1025 appends into one trigram: the first page fills with 1023
    // documents, the 1024th append chains a fresh page.
    let mut idx = Index::create();
    for d in 0u64..=1024 {
        idx.append(7, d);
    }
    let expect: Vec<u64> = (0u64..=1024).collect();
    assert_eq!(idx.posting_list(7), expect);
    let root = idx.directory_entry(7) as usize;
    assert_eq!(root, 2);
    // the root page is full and chained to page 3
    assert_eq!(idx.page_word(root * 1024), 3 + 1024);
    // the tail holds the remaining two documents
    assert_eq!(idx.page_word(3 * 1024), 2);
    assert_eq!(idx.page_word(3 * 1024 + 1), 1023);
    assert_eq!(idx.page_word(3 * 1024 + 2), 1024);
    assert_eq!(idx.free_page(), 4);
}

#[test]
fn growth_preserves_written_documents() {
    // Append into several hundred distinct trigrams so the page
    // array grows past its initial two pages more than once; every
    // posting list must still read back intact.
    let mut text = String::new();
    for a in b'a'..=b'z' {
        for b in b'a'..=b'z' {
            text.push(a as char);
            text.push(b as char);
        }
    }
    let set = trigrams_for(&items_of(&text)).unwrap();
    let tris = set.to_vec();
    assert!(tris.len() > 150);
    let mut idx = Index::create();
    idx.append_trigrams(&set, 5);
    assert!(idx.num_pages() > 2);
    for &t in &tris {
        assert_eq!(idx.posting_list(t as u32), vec![5u64], "trigram {}", t);
    }
}

#[test]
fn append_keeps_other_lists_unchanged() {
    let mut idx = Index::create();
    idx.append(10, 100);
    idx.append(20, 200);
    idx.append(10, 101);
    assert_eq!(idx.posting_list(10), vec![100, 101]);
    assert_eq!(idx.posting_list(20), vec![200]);
    assert_eq!(idx.posting_list(30), Vec::<u64>::new());
}

#[test]
fn reopening_recovers_free_page_and_lists() {
    // Closing and reopening recovers free_page as the high-water
    // mark plus one, and every posting list reads back identically.
    let mut idx = Index::create();
    for d in 0u64..=1024 {
        idx.append(7, d);
    }
    idx.append(9, 77);
    let fp = idx.free_page();
    let lists: Vec<(u32, Vec<u64>)> =
        [7u32, 9, 11].iter().map(|&t| (t, idx.posting_list(t))).collect();
    let (dir, pages) = idx.into_parts();
    let reopened = Index::open(dir, pages).unwrap();
    assert_eq!(reopened.free_page(), fp);
    for (t, docs) in lists {
        assert_eq!(reopened.posting_list(t), docs, "trigram {}", t);
    }
}

#[test]
fn reopening_fresh_store() {
    let (dir, pages) = Index::create().into_parts();
    let reopened = Index::open(dir, pages).unwrap();
    assert_eq!(reopened.free_page(), 2);
}

#[test]
fn open_rejects_bad_geometry() {
    // wrong directory length
    let r = Index::open(vec![0u32; 262143], vec![0u64; 2048]);
    assert_eq!(r.err().unwrap(), StoreError::BadGeometry);
    // page array shorter than two pages
    let r = Index::open(vec![0u32; 262144], vec![0u64; 1024]);
    assert_eq!(r.err().unwrap(), StoreError::BadGeometry);
    // page array not a whole number of pages
    let r = Index::open(vec![0u32; 262144], vec![0u64; 2049]);
    assert_eq!(r.err().unwrap(), StoreError::BadGeometry);
}

#[test]
fn open_rejects_dangling_directory_entry() {
    // All headers are zero, so the recovered free page is 2 and a
    // directory entry pointing at page 3 is out of range.
    let mut dir = vec![0u32; 262144];
    dir[5] = 3;
    let r = Index::open(dir, vec![0u64; 2048]);
    assert_eq!(r.err().unwrap(), StoreError::Corrupt);
}

#[test]
fn open_rejects_shared_page() {
    // Two trigrams pointing at the same page.
    let mut dir = vec![0u32; 262144];
    dir[1] = 2;
    dir[2] = 2;
    let mut pages = vec![0u64; 3 * 1024];
    pages[2 * 1024] = 1;
    pages[2 * 1024 + 1] = 9;
    let r = Index::open(dir, pages);
    assert_eq!(r.err().unwrap(), StoreError::Corrupt);
}

#[test]
fn open_rejects_empty_allocated_page() {
    // Page 3 is written but page 2 below it has a zero header.
    let mut pages = vec![0u64; 4 * 1024];
    pages[3 * 1024] = 1;
    pages[3 * 1024 + 1] = 4;
    let r = Index::open(vec![0u32; 262144], pages);
    assert_eq!(r.err().unwrap(), StoreError::Corrupt);
}

#[test]
fn open_accepts_handwritten_image() {
    let mut dir = vec![0u32; 262144];
    dir[0] = 2;
    let mut pages = vec![0u64; 3 * 1024];
    pages[2 * 1024] = 2;
    pages[2 * 1024 + 1] = 7;
    pages[2 * 1024 + 2] = 8;
    let idx = Index::open(dir, pages).unwrap();
    assert_eq!(idx.free_page(), 3);
    assert_eq!(idx.posting_list(0), vec![7, 8]);
}

#[test]
fn index_document_end_to_end() {
    let mut idx = Index::create();
    idx.index_document(&items_of("foo\n"), 42).unwrap();
    assert_eq!(idx.posting_list(38), vec![42]);
    assert_eq!(idx.posting_list(187201), vec![42]);
    // a failing document reports the extractor's message and leaves
    // the store untouched
    let err = idx.index_document(&items_of("x\0"), 43).unwrap_err();
    assert_eq!(err, "line 1: null found: not a text file");
    assert_eq!(idx.posting_list(38), vec![42]);
}

#[test]
fn duplicate_documents_are_not_deduplicated() {
    // The store itself does not deduplicate; only append_trigrams'
    // set input does.
    let mut idx = Index::create();
    idx.append(3, 4);
    idx.append(3, 4);
    assert_eq!(idx.posting_list(3), vec![4, 4]);
}
