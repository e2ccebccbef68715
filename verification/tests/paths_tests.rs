use todo_find::paths::sort_dedup_paths;

fn bytes(s: &str) -> Vec<u8> {
    s.as_bytes().to_vec()
}

#[test]
fn same_file_from_two_roots_appears_once() {
    // Two provided roots resolved to the same canonical path: one entry.
    let input = vec![bytes("/srv/data/a.txt"), bytes("/home/x/b.txt"), bytes("/srv/data/a.txt")];
    let out = sort_dedup_paths(&input);
    assert_eq!(out, vec![bytes("/home/x/b.txt"), bytes("/srv/data/a.txt")]);
}

#[test]
fn output_is_sorted_whatever_the_input_order() {
    let a = sort_dedup_paths(&vec![bytes("/b"), bytes("/a"), bytes("/c")]);
    let b = sort_dedup_paths(&vec![bytes("/c"), bytes("/b"), bytes("/a")]);
    assert_eq!(a, b);
    assert_eq!(a, vec![bytes("/a"), bytes("/b"), bytes("/c")]);
}

#[test]
fn prefix_sorts_before_extension() {
    let out = sort_dedup_paths(&vec![bytes("/ab"), bytes("/a")]);
    assert_eq!(out, vec![bytes("/a"), bytes("/ab")]);
}

#[test]
fn empty_input_yields_empty_output() {
    let out = sort_dedup_paths(&Vec::new());
    assert!(out.is_empty());
}
