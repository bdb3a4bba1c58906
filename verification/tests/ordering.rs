use label_remap::sorting::sorted_distinct;
use label_remap::text::{is_whitespace_char, to_chars};

#[test]
fn sorted_distinct_sorts_in_ascending_order() {
    assert_eq!(sorted_distinct(&vec![5, 3, 1]), vec![1, 3, 5]);
    assert_eq!(sorted_distinct(&vec![1, 3, 5]), vec![1, 3, 5]);
    assert_eq!(sorted_distinct(&vec![2, 9, 4, 7, 0, 8, 1]), vec![0, 1, 2, 4, 7, 8, 9]);
    assert_eq!(sorted_distinct(&vec![usize::MAX, 0]), vec![0, usize::MAX]);
}

#[test]
fn sorted_distinct_gives_each_value_once() {
    assert_eq!(sorted_distinct(&vec![5, 3, 5, 1, 3, 5]), vec![1, 3, 5]);
    assert_eq!(sorted_distinct(&vec![4, 4, 4, 4]), vec![4]);
}

#[test]
fn sorted_distinct_of_little() {
    assert_eq!(sorted_distinct(&vec![]), Vec::<usize>::new());
    assert_eq!(sorted_distinct(&vec![6]), vec![6]);
    assert_eq!(sorted_distinct(&vec![6, 2]), vec![2, 6]);
}

#[test]
fn sorted_distinct_of_many() {
    let mut values: Vec<usize> = Vec::new();
    let mut x: usize = 12345;
    for _ in 0..5000 {
        x = (x * 1103515245 + 12345) % 2147483648;
        values.push(x % 3000);
    }
    let mut expected = values.clone();
    expected.sort();
    expected.dedup();
    assert_eq!(sorted_distinct(&values), expected);
}

#[test]
fn white_space_is_what_unicode_calls_white_space() {
    for c in ['\t', '\n', '\u{b}', '\u{c}', '\r', ' ', '\u{85}', '\u{a0}', '\u{1680}', '\u{2000}',
        '\u{2005}', '\u{200a}', '\u{2028}', '\u{2029}', '\u{202f}', '\u{205f}', '\u{3000}']
    {
        assert!(is_whitespace_char(c));
    }
    for c in ['a', '0', '+', '\u{0}', '\u{8}', '\u{e}', '\u{1f}', '!', '\u{84}', '\u{86}',
        '\u{9f}', '\u{a1}', '\u{200b}', '\u{2060}', '\u{feff}', '\u{180e}']
    {
        assert!(!is_whitespace_char(c));
    }
}

#[test]
fn white_space_agrees_with_the_standard_library_on_every_character() {
    for code in 0..=0x10ffffu32 {
        if let Some(c) = char::from_u32(code) {
            assert_eq!(is_whitespace_char(c), c.is_whitespace());
        }
    }
}

#[test]
fn to_chars_gives_the_characters_in_order() {
    assert_eq!(to_chars(""), Vec::<char>::new());
    assert_eq!(to_chars("a 1\n"), vec!['a', ' ', '1', '\n']);
    assert_eq!(to_chars("\u{e9}\u{3000}z"), vec!['\u{e9}', '\u{3000}', 'z']);
}
