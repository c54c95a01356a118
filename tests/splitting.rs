use strsplit::{until_char, Delimiter, Splitter};

#[test]
fn it_works() {
    let text = "a b c d e";
    let letters: Vec<_> = Splitter::new(text, " ").collect();
    assert_eq!(letters, vec!["a", "b", "c", "d", "e"]);
}

#[test]
fn test_trailing_delimiter() {
    let text = "a b c d ";
    let letters: Vec<_> = Splitter::new(text, " ").collect();
    assert_eq!(letters, vec!["a", "b", "c", "d", ""]);
}

#[test]
fn until_char_test() {
    assert_eq!(until_char("hello lifetimes", 'l'), "he");
}

#[test]
fn empty_text_gives_one_empty_segment() {
    let parts: Vec<_> = Splitter::new("", " ").collect();
    assert_eq!(parts, vec![""]);
    let parts: Vec<_> = Splitter::new("", 'x').collect();
    assert_eq!(parts, vec![""]);
}

#[test]
fn only_delimiters_give_empty_segments() {
    let parts: Vec<_> = Splitter::new("xx", "x").collect();
    assert_eq!(parts, vec!["", "", ""]);
}

#[test]
fn leading_and_adjacent_delimiters_keep_empty_segments() {
    let parts: Vec<_> = Splitter::new(",a,,b", ',').collect();
    assert_eq!(parts, vec!["", "a", "", "b"]);
}

#[test]
fn multi_byte_literal_delimiter() {
    let parts: Vec<_> = Splitter::new("one::two::three", "::").collect();
    assert_eq!(parts, vec!["one", "two", "three"]);
}

#[test]
fn multi_byte_char_delimiter() {
    let parts: Vec<_> = Splitter::new("añbñc", 'ñ').collect();
    assert_eq!(parts, vec!["a", "b", "c"]);
    let parts: Vec<_> = Splitter::new("x€y€", '€').collect();
    assert_eq!(parts, vec!["x", "y", ""]);
    let parts: Vec<_> = Splitter::new("🦀 and 🦀", '🦀').collect();
    assert_eq!(parts, vec!["", " and ", ""]);
}

#[test]
fn no_occurrence_gives_whole_text() {
    let parts: Vec<_> = Splitter::new("hello world", "z").collect();
    assert_eq!(parts, vec!["hello world"]);
    let parts: Vec<_> = Splitter::new("hello world", 'é').collect();
    assert_eq!(parts, vec!["hello world"]);
}

#[test]
fn empty_literal_never_matches() {
    let parts: Vec<_> = Splitter::new("abc", "").collect();
    assert_eq!(parts, vec!["abc"]);
}

#[test]
fn joining_segments_rebuilds_text() {
    for text in ["a b  c ", " ", "", "no-spaces", "  lead"] {
        let parts: Vec<_> = Splitter::new(text, " ").collect();
        assert_eq!(parts.join(" "), text);
        let parts: Vec<_> = Splitter::new(text, ' ').collect();
        assert_eq!(parts.join(" "), text);
    }
}

#[test]
fn two_splitters_agree() {
    let a: Vec<_> = Splitter::new("p, q,, r", ", ").collect();
    let b: Vec<_> = Splitter::new("p, q,, r", ", ").collect();
    assert_eq!(a, b);
    assert_eq!(a, vec!["p", "q,", "r"]);
}

#[test]
fn next_stays_exhausted() {
    let mut it = Splitter::new("a;b", ';');
    assert_eq!(it.next(), Some("a"));
    assert_eq!(it.next(), Some("b"));
    assert_eq!(it.next(), None);
    assert_eq!(it.next(), None);
}

#[test]
fn find_next_reports_byte_spans() {
    assert_eq!(" ".find_next("ab cd"), Some((2, 3)));
    assert_eq!("cd".find_next("ab cd"), Some((3, 5)));
    assert_eq!("zz".find_next("ab cd"), None);
    assert_eq!('é'.find_next("café!"), Some((3, 5)));
    assert_eq!('€'.find_next("1€"), Some((1, 4)));
    assert_eq!('q'.find_next("abc"), None);
}

#[test]
fn until_char_without_occurrence_is_whole_text() {
    assert_eq!(until_char("plain", 'z'), "plain");
    assert_eq!(until_char("", 'z'), "");
    assert_eq!(until_char("smörgåsbord", 'å'), "smörg");
}
