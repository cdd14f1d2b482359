use backdown::dup::DupFile;
use backdown::export::available_path;
use backdown::hash::{ContentHasher, FileHash};
use backdown::index::TextIndex;
use backdown::sorting::{descending_order, rearrange, sort_descending};

fn digest(pieces: &[&[u8]]) -> FileHash {
    let mut hasher = ContentHasher::new();
    for piece in pieces {
        hasher.update(piece);
    }
    hasher.finish()
}

#[test]
fn digest_of_nothing() {
    assert_eq!(
        digest(&[]).hex,
        "af1349b9f5f9a1a6a0404dea36dcc9499bcb25c9adc112b7cc9a93cae41f3262"
    );
}

#[test]
fn digest_is_that_of_blake3() {
    assert_eq!(digest(&[b"foo"]).hex, blake3::hash(b"foo").to_hex().to_string());
    assert_eq!(digest(&[b"foo", b"bar", b"baz"]).hex, blake3::hash(b"foobarbaz").to_hex().to_string());
}

#[test]
fn digest_does_not_depend_on_the_pieces() {
    let whole = digest(&[b"hello world"]);
    let pieces = digest(&[b"hello", b"", b" ", b"world"]);
    assert!(whole.same(&pieces));
    assert!(!whole.same(&digest(&[b"hello world!"])));
}

#[test]
fn a_file_has_a_parent_and_a_name() {
    let f = DupFile::new("/d/a.png".to_string()).unwrap();
    assert_eq!(f.path, "/d/a.png");
    assert_eq!(f.parent, "/d");
    assert_eq!(f.name, "a.png");
    let f = DupFile::new("a.png".to_string()).unwrap();
    assert_eq!(f.parent, "");
    assert_eq!(f.name, "a.png");
    let f = DupFile::new("/d/..".to_string()).unwrap();
    assert_eq!(f.parent, "/d");
    assert_eq!(f.name, "");
}

#[test]
fn a_path_without_parent_is_no_file() {
    assert!(DupFile::new("/".to_string()).is_none());
    assert!(DupFile::new("".to_string()).is_none());
}

#[test]
fn texts_are_numbered_in_order_of_appearance() {
    let mut index = TextIndex::new();
    assert_eq!(index.len(), 0);
    assert_eq!(index.find("a"), None);
    assert_eq!(index.intern("a"), 0);
    assert_eq!(index.intern("b"), 1);
    assert_eq!(index.intern("a"), 0);
    assert_eq!(index.intern(""), 2);
    assert_eq!(index.len(), 3);
    assert_eq!(index.find("b"), Some(1));
    assert_eq!(index.find("c"), None);
    assert_eq!(index.text(1), "b");
    assert_eq!(index.text(2), "");
}

#[test]
fn descending_order_is_stable() {
    assert_eq!(descending_order(&vec![]), Vec::<usize>::new());
    assert_eq!(descending_order(&vec![1, 3, 2, 3, 1]), vec![1, 3, 2, 0, 4]);
    assert_eq!(descending_order(&vec![5, 5, 5]), vec![0, 1, 2]);
}

#[test]
fn items_are_rearranged() {
    let items = vec!["a".to_string(), "b".to_string(), "c".to_string()];
    assert_eq!(rearrange(items, &vec![2, 0, 1]), vec!["c", "a", "b"]);
    assert_eq!(rearrange(Vec::<String>::new(), &vec![]), Vec::<String>::new());
}

#[test]
fn items_are_sorted_by_descending_key() {
    let items = vec!["one", "three", "two", "also three"];
    let (sorted, _) = sort_descending(items, &vec![1, 3, 2, 3]);
    assert_eq!(sorted, vec!["three", "also three", "two", "one"]);
}

#[test]
fn report_file_is_named_after_the_date_and_the_attempt() {
    assert_eq!(
        available_path("2021-03-04-10h30", "backdown-report", 1),
        "2021-03-04-10h30-backdown-report.json"
    );
    assert_eq!(
        available_path("2021-03-04-10h30", "backdown-report", 2),
        "2021-03-04-10h30-backdown-report-2.json"
    );
    assert_eq!(available_path("d", "n", 10), "d-n-10.json");
    assert_eq!(available_path("d", "n", 9075), "d-n-9075.json");
    assert_eq!(available_path("d", "n", 1234567890), "d-n-1234567890.json");
    assert_eq!(available_path("", "", 0), "-.json");
}
