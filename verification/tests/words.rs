use petri::text::{
    byte_len, chars_of, find_arrow_in, find_char, is_white_space, push_decimal, push_padded_left,
    push_padded_right, push_repeated, read_u32, same_text, split_words, string_of, trim, trim_start,
};

const SAMPLES: [&str; 14] = [
    "",
    " ",
    "a",
    "  a  b ",
    "\ta\u{3000}b\u{a0}c\r",
    "a->b",
    "- > -> x",
    "--->",
    "x = 1 = 2",
    "caf\u{e9} \u{2192} \u{1f600}",
    "\u{200b}zero width is no space",
    "\u{85}\u{2028}\u{2029}",
    "# only a comment",
    "name: a a -> b # twice",
];

fn chars(s: &str) -> Vec<char> {
    s.chars().collect()
}

#[test]
fn white_space_agrees_with_std_on_every_character() {
    for u in 0..=0x10ffffu32 {
        if let Some(c) = char::from_u32(u) {
            assert_eq!(is_white_space(c), c.is_whitespace(), "{:x}", u);
        }
    }
}

#[test]
fn trimming_and_splitting_agree_with_std() {
    for s in SAMPLES {
        let cs = chars(s);
        assert_eq!(string_of(trim(&cs)), s.trim());
        assert_eq!(string_of(trim_start(&cs)), s.trim_start());
        let words: Vec<&str> = s.split_whitespace().collect();
        assert_eq!(split_words(&cs), words);
        assert_eq!(chars_of(s), cs);
        assert_eq!(string_of(&cs), s);
        assert_eq!(byte_len(s), s.len());
    }
}

#[test]
fn searching_agrees_with_std() {
    for s in SAMPLES {
        let cs = chars(s);
        for c in ['a', '=', ':', '#', '\u{e9}'] {
            let want = s.chars().position(|x| x == c).unwrap_or(cs.len());
            assert_eq!(find_char(&cs, c), want);
        }
        let want = match s.find("->") {
            Some(b) => s[..b].chars().count(),
            None => cs.len(),
        };
        assert_eq!(find_arrow_in(&cs), want);
    }
}

#[test]
fn numbers_are_read_as_std_reads_them() {
    let samples = [
        "0", "7", "007", "+5", "++5", "-0", "-1", "", "+", "-", " 1", "1 ", "1_000", "4294967295",
        "4294967296", "99999999999999999999999999", "\u{0663}", "1.0", "0x10", "12a",
    ];
    for s in samples {
        assert_eq!(read_u32(&chars(s)), s.parse::<u32>().ok(), "{:?}", s);
    }
}

#[test]
fn numerals_are_written_as_std_writes_them() {
    for n in [0u64, 1, 9, 10, 11, 99, 100, 12345, 4294967295, u64::MAX] {
        let mut s = String::from("x");
        push_decimal(&mut s, n);
        assert_eq!(s, format!("x{}", n));
    }
}

#[test]
fn padding_counts_characters() {
    for s in ["", "a", "abcd", "abcdef", "\u{e9}\u{e9}"] {
        let mut right = String::new();
        push_padded_right(&mut right, s, 5);
        assert_eq!(right, format!("{:<5}", s));
        let mut left = String::new();
        push_padded_left(&mut left, s, 5);
        assert_eq!(left, format!("{:>5}", s));
    }
    let mut dots = String::from("|");
    push_repeated(&mut dots, '\u{25cf}', 3);
    assert_eq!(dots, "|\u{25cf}\u{25cf}\u{25cf}");
}

#[test]
fn texts_are_compared_by_characters() {
    assert!(same_text("TAB", "TAB"));
    assert!(same_text("", ""));
    assert!(!same_text("TAB", "TA"));
    assert!(!same_text("TAB", "TAb"));
}
