use backdown::copy_name::{digit, is_copy_name_chars, is_copy_name_text, word_char};
use backdown::dup::copy_name;
use backdown::ext::is_image;
use backdown::scan::{is_hidden, scan_step, EntryKind, ScanStep};
use backdown::paths::{path_precedes, path_text_precedes};
use backdown::text::{chars_of, precedes, text_precedes};

#[test]
fn test_is_copy_named() {
    let copies = &[
        "/some/path/to/bla (3).jpg",
        "bla (3455).jpg",
        "uuuuu (copy).rs",
        "/home/dys/Images/pink hexapodes (another copy).jpeg",
        "~/uuuuu (copy)",
        "uuuuu (3rd copy)",
    ];
    for s in copies {
        assert!(copy_name(s).is_some());
    }
    let not_copies = &["copy", "copy.txt", "bla.png", "/home/dys/not a copy", "(don't copy)"];
    for s in not_copies {
        assert!(copy_name(s).is_none());
    }
}

#[test]
fn copy_name_is_the_file_name() {
    assert_eq!(copy_name("/some/path/to/bla (3).jpg"), Some("bla (3).jpg".to_string()));
    assert_eq!(copy_name("~/uuuuu (copy)"), Some("uuuuu (copy)".to_string()));
    assert_eq!(copy_name("/d/x (copy 2).jpg"), Some("x (copy 2).jpg".to_string()));
    assert_eq!(copy_name("/d (copy 2)/x.jpg"), None);
    assert_eq!(copy_name("/some/bla (3).jpg/plain.txt"), None);
    assert_eq!(copy_name("/"), None);
}

#[test]
fn copy_marker_needs_something_before_it() {
    assert!(!is_copy_name_text("(3)"));
    assert!(!is_copy_name_text("(copy).txt"));
    assert!(is_copy_name_text("a(3)"));
    assert!(is_copy_name_text(" (copy)"));
    assert!(!is_copy_name_text("\n(3)"));
    assert!(is_copy_name_text("a\nb(3)"));
}

#[test]
fn copy_marker_is_a_number_or_holds_the_word_copy() {
    assert!(is_copy_name_text("a (0)"));
    assert!(is_copy_name_text("a (0123456789)"));
    assert!(!is_copy_name_text("a ()"));
    assert!(!is_copy_name_text("a (3a)"));
    assert!(!is_copy_name_text("a (a3)"));
    assert!(is_copy_name_text("a (copy)"));
    assert!(is_copy_name_text("a (my (own copy)"));
    assert!(is_copy_name_text("a ((copy)"));
    assert!(is_copy_name_text("a (copy )"));
    assert!(!is_copy_name_text("a (Copy)"));
    assert!(!is_copy_name_text("a (cop)"));
    assert!(is_copy_name_text("a (copy of b)"));
    assert!(is_copy_name_text("x (copy 2).jpg"));
    assert!(is_copy_name_text("x (2nd copy of 3)"));
    assert!(is_copy_name_text("x (photocopying).png"));
    assert!(!is_copy_name_text("x (cop y)"));
    assert!(!is_copy_name_text("x (c) (opy)"));
    assert!(!is_copy_name_text("x copy (2a)"));
    assert!(!is_copy_name_text("x (copy) y)"));
    assert!(!is_copy_name_text("(copy 2)"));
    assert!(!is_copy_name_text("a (x) copy)"));
    assert!(is_copy_name_text("a (x) (copy)"));
    assert!(is_copy_name_text("a (copy) (2)"));
}

#[test]
fn copy_marker_is_followed_by_an_extension_at_most() {
    assert!(is_copy_name_text("a (3).jpg"));
    assert!(is_copy_name_text("a (3).tar_gz"));
    assert!(is_copy_name_text("a (3).7z"));
    assert!(!is_copy_name_text("a (3)."));
    assert!(!is_copy_name_text("a (3).tar.gz"));
    assert!(!is_copy_name_text("a (3) .jpg"));
    assert!(!is_copy_name_text("a (3)b"));
    assert!(!is_copy_name_text("a (3).j-g"));
    assert!(!is_copy_name_text("a (3)\n"));
    assert!(!is_copy_name_text(""));
    assert!(!is_copy_name_text(")"));
    assert!(!is_copy_name_text("a)"));
}

#[test]
fn copy_names_agree_with_the_regular_expression() {
    let pattern = lazy_regex::Regex::new(r"(?x) .+ \(( \d+ | [^)]* copy [^)]* )\) (\.\w+)? $").unwrap();
    let heads = ["", "a", "a ", "/", "x(", "x)", "a\n", "(1)", "b (copy)", "é"];
    let markers = [
        "", "1", "12", "1a", "copy", " copy", "a copy", "copy ", "cop", "(copy", "c)py", "x)copy", "٣", "1٣",
        "½", "é copy", "Ⅷ", "copy 2", "copy)2", "cocopy", "copcopy1", "c o p y",
    ];
    let tails = [
        "", ".", ".j", ".jpg", ".j.g", "x", " ", ".a_b", ".a-b", ")", "(2)", " (2).png", ".jpég", ".٣", ".a b",
        ".€", ".日本",
    ];
    let mut matching = 0;
    for head in heads {
        for marker in markers {
            for tail in tails {
                let name = format!("{}({}){}", head, marker, tail);
                let expected = pattern.is_match(&name);
                assert_eq!(is_copy_name_text(&name), expected, "{:?}", name);
                assert_eq!(is_copy_name_chars(&name.chars().collect()), expected, "{:?}", name);
                if expected {
                    matching += 1;
                }
            }
        }
    }
    assert!(matching > 50);
}

#[test]
fn copy_names_agree_with_the_regular_expression_on_all_short_names() {
    let pattern = lazy_regex::Regex::new(r"(?x) .+ \(( \d+ | [^)]* copy [^)]* )\) (\.\w+)? $").unwrap();
    let tokens = ["a", "(", ")", "1", ".", "copy", " ", "\n", "é"];
    let mut names = vec![String::new()];
    let mut from = 0;
    for _ in 0..5 {
        let upto = names.len();
        for i in from..upto {
            for token in tokens {
                let longer = format!("{}{}", names[i], token);
                names.push(longer);
            }
        }
        from = upto;
    }
    assert_eq!(names.len(), 1 + 9 + 81 + 729 + 6561 + 59049);
    let mut matching = 0;
    for name in &names {
        let expected = pattern.is_match(name);
        assert_eq!(is_copy_name_text(name), expected, "{:?}", name);
        if expected {
            matching += 1;
        }
    }
    assert!(matching > 100);
}

#[test]
fn digits_and_letters_of_other_scripts_count() {
    assert!(is_copy_name_text("صورة (٣).jpg"));
    assert!(is_copy_name_text("photo (3).jpég"));
    assert!(is_copy_name_text("写真 (copy).日本"));
    assert!(!is_copy_name_text("photo (½).jpg"));
    assert!(!is_copy_name_text("photo (3).j€"));
    assert!(digit('7'));
    assert!(digit('٧'));
    assert!(!digit('x'));
    assert!(!digit('Ⅷ'));
    assert!(word_char('_'));
    assert!(word_char('é'));
    assert!(word_char('٧'));
    assert!(!word_char('-'));
    assert!(!word_char('€'));
}

#[test]
fn image_extensions_are_recognised() {
    for ext in ["jpg", "JPG", "jpeg", "JPEG", "png", "PNG"] {
        assert!(is_image(ext));
    }
    for ext in ["", "Jpg", "jpe", "jpegs", "pn", "gif", "txt", "png ", ".png"] {
        assert!(!is_image(ext));
    }
}

#[test]
fn characters_of_a_text() {
    assert_eq!(chars_of(""), Vec::<char>::new());
    assert_eq!(chars_of("héllo"), vec!['h', 'é', 'l', 'l', 'o']);
}

#[test]
fn lexicographic_order_of_texts() {
    assert!(text_precedes("", "a"));
    assert!(!text_precedes("", ""));
    assert!(!text_precedes("a", ""));
    assert!(text_precedes("a", "b"));
    assert!(!text_precedes("b", "a"));
    assert!(text_precedes("/a", "/a/b"));
    assert!(text_precedes("/a-b", "/a/b"));
    assert!(!text_precedes("/a/b", "/a/b"));
    assert!(text_precedes("abc", "abd"));
    assert!(text_precedes("Z", "a"));
    assert!(text_precedes("z", "é"));
    assert!(precedes(&vec!['a'], &vec!['a', 'a']));
    assert!(!precedes(&vec!['a', 'a'], &vec!['a']));
}

#[test]
fn lexicographic_order_agrees_with_the_order_of_strings() {
    let texts = ["", "a", "ab", "b", "/x", "/x/y", "/x-y", "é", "z", "Z", "/x/", "0"];
    for a in texts {
        for b in texts {
            assert_eq!(text_precedes(a, b), a < b, "{:?} {:?}", a, b);
        }
    }
}

#[test]
fn order_of_paths_puts_the_separator_first() {
    assert!(path_text_precedes("/a/b", "/a-b"));
    assert!(!path_text_precedes("/a-b", "/a/b"));
    assert!(path_text_precedes("/a", "/a/b"));
    assert!(path_text_precedes("/a/z", "/a b"));
    assert!(path_text_precedes("/a", "/b"));
    assert!(!path_text_precedes("/a", "/a"));
    assert!(path_text_precedes("", "/"));
    assert!(path_precedes(&vec!['/'], &vec!['.']));
    assert!(!path_precedes(&vec!['.'], &vec!['/']));
}

#[test]
fn order_of_paths_agrees_with_the_order_of_std() {
    let paths = [
        "", "/", "/a", "/a/b", "/a-b", "/a b", "/a.b", "/ab", "/a/b/c", "/a/b c", "/b", "a", "a/b", "a-b",
        "é/x", "/a/é", "/A", "/a!b", "/a/!", "/a-b/c", "/a/b-c",
    ];
    for a in paths {
        for b in paths {
            assert_eq!(
                path_text_precedes(a, b),
                std::path::Path::new(a) < std::path::Path::new(b),
                "{:?} {:?}",
                a,
                b
            );
        }
    }
}

#[test]
fn hidden_names_start_with_a_dot() {
    assert!(is_hidden(".git"));
    assert!(is_hidden("."));
    assert!(!is_hidden(""));
    assert!(!is_hidden("a.b"));
}

#[test]
fn the_walk_skips_hidden_entries_and_filters_images() {
    assert_eq!(scan_step(".hidden", EntryKind::Directory, None, false), ScanStep::Skip);
    assert_eq!(scan_step(".hidden.png", EntryKind::File, Some("png"), true), ScanStep::Skip);
    assert_eq!(scan_step("dev", EntryKind::Directory, None, true), ScanStep::Descend);
    assert_eq!(scan_step("dir.png", EntryKind::Directory, Some("png"), true), ScanStep::Descend);
    assert_eq!(scan_step("a.txt", EntryKind::File, Some("txt"), false), ScanStep::Hash);
    assert_eq!(scan_step("a", EntryKind::File, None, false), ScanStep::Hash);
    assert_eq!(scan_step("a.txt", EntryKind::File, Some("txt"), true), ScanStep::Skip);
    assert_eq!(scan_step("a", EntryKind::File, None, true), ScanStep::Skip);
    assert_eq!(scan_step("a.PNG", EntryKind::File, Some("PNG"), true), ScanStep::Hash);
    assert_eq!(scan_step("link", EntryKind::Other, None, false), ScanStep::Skip);
}
