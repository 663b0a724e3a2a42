use strsplit::{until_char, Delimiter, StrSplit};

#[test]
fn until_char_test() {
    assert_eq!(until_char("hello world", 'o'), "hell");
}

#[test]
fn it_works() {
    let haystack = "a b c d e";
    let mut split = StrSplit::new(haystack, " ");
    let mut letters: Vec<&str> = Vec::new();
    while let Some(item) = split.next() {
        letters.push(item);
    }
    assert_eq!(letters, vec!["a", "b", "c", "d", "e"]);
}

#[test]
fn tail() {
    let haystack = "a b c d ";
    let mut split = StrSplit::new(haystack, " ");
    let mut letters: Vec<&str> = Vec::new();
    while let Some(item) = split.next() {
        letters.push(item);
    }
    assert_eq!(letters, vec!["a", "b", "c", "d", ""]);
}

#[test]
fn no_delimiter_yields_whole_haystack() {
    let mut split = StrSplit::new("abcdef", ",");
    assert_eq!(split.next(), Some("abcdef"));
    assert_eq!(split.next(), None);
}

#[test]
fn empty_haystack_yields_one_empty_item() {
    let mut split = StrSplit::new("", " ");
    assert_eq!(split.next(), Some(""));
    assert_eq!(split.next(), None);
    let mut by_char = StrSplit::new("", 'x');
    assert_eq!(by_char.next(), Some(""));
    assert_eq!(by_char.next(), None);
}

#[test]
fn exhausted_stays_exhausted() {
    let mut split = StrSplit::new("a,b", ",");
    assert_eq!(split.next(), Some("a"));
    assert_eq!(split.next(), Some("b"));
    for _ in 0..10 {
        assert_eq!(split.next(), None);
    }
}

#[test]
fn back_to_back_delimiters_yield_empty_items() {
    let mut split = StrSplit::new(",a,,b,", ",");
    let mut items: Vec<&str> = Vec::new();
    while let Some(item) = split.next() {
        items.push(item);
    }
    assert_eq!(items, vec!["", "a", "", "b", ""]);
}

#[test]
fn multi_byte_pattern() {
    let mut split = StrSplit::new("one::two::three", "::");
    let mut items: Vec<&str> = Vec::new();
    while let Some(item) = split.next() {
        items.push(item);
    }
    assert_eq!(items, vec!["one", "two", "three"]);
}

#[test]
fn rejoining_gives_back_haystack() {
    let haystack = "x--y----z--";
    let mut split = StrSplit::new(haystack, "--");
    let mut items: Vec<&str> = Vec::new();
    while let Some(item) = split.next() {
        items.push(item);
    }
    assert_eq!(items, vec!["x", "y", "", "z", ""]);
    assert_eq!(items.join("--"), haystack);
}

#[test]
fn char_and_one_char_pattern_split_alike() {
    let haystack = "axbxxcx";
    let mut by_char = StrSplit::new(haystack, 'x');
    let mut by_pattern = StrSplit::new(haystack, "x");
    loop {
        let a = by_char.next();
        let b = by_pattern.next();
        assert_eq!(a, b);
        if a.is_none() {
            break;
        }
    }
}

#[test]
fn multi_byte_char_delimiter() {
    let mut split = StrSplit::new("añbñc", 'ñ');
    assert_eq!(split.next(), Some("a"));
    assert_eq!(split.next(), Some("b"));
    assert_eq!(split.next(), Some("c"));
    assert_eq!(split.next(), None);
}

#[test]
fn four_byte_char_delimiter() {
    let mut split = StrSplit::new("é😀ü😀", '😀');
    assert_eq!(split.next(), Some("é"));
    assert_eq!(split.next(), Some("ü"));
    assert_eq!(split.next(), Some(""));
    assert_eq!(split.next(), None);
}

#[test]
fn char_find_next_reports_byte_span() {
    assert_eq!('ñ'.find_next("aañb"), Some((2, 4)));
    assert_eq!('€'.find_next("x€"), Some((1, 4)));
    assert_eq!('z'.find_next("abc"), None);
    assert_eq!('a'.find_next(""), None);
}

#[test]
fn pattern_find_next_reports_byte_span() {
    assert_eq!("cd".find_next("abcdcd"), Some((2, 4)));
    assert_eq!("dd".find_next("abcdcd"), None);
    assert_eq!("abc".find_next("ab"), None);
}

#[test]
fn empty_pattern_matches_nowhere() {
    assert_eq!("".find_next("abc"), None);
    let mut split = StrSplit::new("abc", "");
    assert_eq!(split.next(), Some("abc"));
    assert_eq!(split.next(), None);
}

#[test]
fn until_char_absent_gives_whole() {
    assert_eq!(until_char("hello", 'z'), "hello");
    assert_eq!(until_char("", 'z'), "");
    assert_eq!(until_char("ohh", 'o'), "");
}
