use seqstamp::entries::{lex_le_bytes, sort_entries, FileEntry};

fn entry(name: &str, handle: usize) -> FileEntry {
    FileEntry { name: name.as_bytes().to_vec(), handle }
}

fn names(entries: &[FileEntry]) -> Vec<String> {
    entries.iter().map(|e| String::from_utf8(e.name.clone()).unwrap()).collect()
}

#[test]
fn lexicographic_comparison() {
    assert!(lex_le_bytes(&b"a".to_vec(), &b"b".to_vec()));
    assert!(!lex_le_bytes(&b"b".to_vec(), &b"a".to_vec()));
    assert!(lex_le_bytes(&b"a".to_vec(), &b"a".to_vec()));
    assert!(lex_le_bytes(&b"a".to_vec(), &b"ab".to_vec()));
    assert!(!lex_le_bytes(&b"ab".to_vec(), &b"a".to_vec()));
    assert!(lex_le_bytes(&b"".to_vec(), &b"a".to_vec()));
    assert!(lex_le_bytes(&b"".to_vec(), &b"".to_vec()));
}

#[test]
fn sorts_by_name() {
    let listed = vec![entry("b.txt", 0), entry("a.txt", 1), entry("c.txt", 2)];
    let sorted = sort_entries(listed);
    assert_eq!(names(&sorted), vec!["a.txt", "b.txt", "c.txt"]);
    assert_eq!(sorted[0].handle, 1);
    assert_eq!(sorted[1].handle, 0);
    assert_eq!(sorted[2].handle, 2);
}

#[test]
fn sort_ignores_listing_order() {
    // The same entries handed over in two listing orders come out the same.
    let first = sort_entries(vec![entry("b.txt", 1), entry("a.txt", 0), entry("z.txt", 2)]);
    let second = sort_entries(vec![entry("z.txt", 2), entry("b.txt", 1), entry("a.txt", 0)]);
    assert_eq!(names(&first), names(&second));
    let fh: Vec<usize> = first.iter().map(|e| e.handle).collect();
    let sh: Vec<usize> = second.iter().map(|e| e.handle).collect();
    assert_eq!(fh, sh);
}

#[test]
fn sort_is_idempotent() {
    let once = sort_entries(vec![entry("m", 0), entry("a", 1), entry("q", 2)]);
    let again = sort_entries(once);
    assert_eq!(names(&again), vec!["a", "m", "q"]);
}

#[test]
fn sort_keeps_listing_order_of_equal_names() {
    let sorted = sort_entries(vec![entry("b", 0), entry("a", 1), entry("a", 2), entry("b", 3)]);
    assert_eq!(names(&sorted), vec!["a", "a", "b", "b"]);
    let handles: Vec<usize> = sorted.iter().map(|e| e.handle).collect();
    assert_eq!(handles, vec![1, 2, 0, 3]);
}

#[test]
fn sort_edge_sizes() {
    let empty = sort_entries(Vec::new());
    assert_eq!(empty.len(), 0);
    let single = sort_entries(vec![entry("only", 7)]);
    assert_eq!(names(&single), vec!["only"]);
    assert_eq!(single[0].handle, 7);
}
