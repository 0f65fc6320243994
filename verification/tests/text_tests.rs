use std::cmp::Ordering;
use rope::text::{
    contains, contains_char, ends_with, eq, escape_default, escape_unicode, is_empty,
    is_whitespace, le, starts_with, to_chars, OwnedStr, StrCharSplitSeparator, StrVector,
    trim, trim_chars, trim_left, trim_left_chars, trim_right, trim_right_chars,
};

#[test]
fn test_eq() {
    assert!(eq(&String::from(""), &String::from("")));
    assert!(eq(&String::from("foo"), &String::from("foo")));
    assert!(!eq(&String::from("foo"), &String::from("bar")));
}

#[test]
fn test_le() {
    assert!(le("", ""));
    assert!(le("", "foo"));
    assert!(le("foo", "foo"));
    assert!(!eq(&String::from("foo"), &String::from("bar")));
}

#[test]
fn test_starts_with() {
    assert!(starts_with("", ""));
    assert!(starts_with("abc", ""));
    assert!(starts_with("abc", "a"));
    assert!(!starts_with("a", "abc"));
    assert!(!starts_with("", "abc"));
}

#[test]
fn test_ends_with() {
    assert!(ends_with("", ""));
    assert!(ends_with("abc", ""));
    assert!(ends_with("abc", "c"));
    assert!(!ends_with("a", "abc"));
    assert!(!ends_with("", "abc"));
}

#[test]
fn test_is_empty() {
    assert!(is_empty(""));
    assert!(!is_empty("a"));
}

#[test]
fn test_trim_left_chars() {
    assert!(trim_left_chars(" *** foo *** ", &[]) == " *** foo *** ");
    assert!(trim_left_chars(" *** foo *** ", &['*', ' ']) == "foo *** ");
    assert_eq!(trim_left_chars(" ***  *** ", &['*', ' ']), "");
    assert!(trim_left_chars("foo *** ", &['*', ' ']) == "foo *** ");
}

#[test]
fn test_trim_right_chars() {
    assert!(trim_right_chars(" *** foo *** ", &[]) == " *** foo *** ");
    assert!(trim_right_chars(" *** foo *** ", &['*', ' ']) == " *** foo");
    assert_eq!(trim_right_chars(" ***  *** ", &['*', ' ']), "");
    assert!(trim_right_chars(" *** foo", &['*', ' ']) == " *** foo");
}

#[test]
fn test_trim_chars() {
    assert_eq!(trim_chars(" *** foo *** ", &[]), " *** foo *** ");
    assert_eq!(trim_chars(" *** foo *** ", &['*', ' ']), "foo");
    assert_eq!(trim_chars(" ***  *** ", &['*', ' ']), "");
    assert_eq!(trim_chars("foo", &['*', ' ']), "foo");
}

#[test]
fn test_trim_left() {
    assert_eq!(trim_left(""), "");
    assert_eq!(trim_left("a"), "a");
    assert_eq!(trim_left("    "), "");
    assert_eq!(trim_left("     blah"), "blah");
    assert_eq!(trim_left("   \u{3000}  wut"), "wut");
    assert_eq!(trim_left("hey "), "hey ");
}

#[test]
fn test_trim_right() {
    assert_eq!(trim_right(""), "");
    assert_eq!(trim_right("a"), "a");
    assert_eq!(trim_right("    "), "");
    assert_eq!(trim_right("blah     "), "blah");
    assert_eq!(trim_right("wut   \u{3000}  "), "wut");
    assert_eq!(trim_right(" hey"), " hey");
}

#[test]
fn test_trim() {
    assert_eq!(trim(""), "");
    assert_eq!(trim("a"), "a");
    assert_eq!(trim("    "), "");
    assert_eq!(trim("    blah     "), "blah");
    assert_eq!(trim("\nwut   \u{3000}  "), "wut");
    assert_eq!(trim(" hey dude "), "hey dude");
}

#[test]
fn test_is_whitespace() {
    assert!(is_whitespace(""));
    assert!(is_whitespace(" "));
    assert!(is_whitespace("\u{2009}"));
    assert!(is_whitespace("  \n\t   "));
    assert!(!is_whitespace("   _   "));
}

#[test]
fn test_contains() {
    assert!(contains("abcde", "bcd"));
    assert!(contains("abcde", "abcd"));
    assert!(contains("abcde", "bcde"));
    assert!(contains("abcde", ""));
    assert!(contains("", ""));
    assert!(!contains("abcde", "def"));
    assert!(!contains("", "a"));

    let data = "ประเทศไทย中华Việt Nam";
    assert!(contains(data, "ประเ"));
    assert!(contains(data, "ะเ"));
    assert!(contains(data, "中华"));
    assert!(!contains(data, "ไท华"));
}

#[test]
fn test_contains_char() {
    assert!(contains_char("abc", 'b'));
    assert!(contains_char("a", 'a'));
    assert!(!contains_char("abc", 'd'));
    assert!(!contains_char("", 'a'));
}

#[test]
fn test_chars() {
    let ss = "ศไทย中华Việt Nam";
    assert!(
        vec!['ศ', 'ไ', 'ท', 'ย', '中', '华', 'V', 'i', 'ệ', 't', ' ', 'N', 'a', 'm']
            == to_chars(ss)
    );
}

#[test]
fn test_utf16() {
    let pairs: Vec<(&str, Vec<u16>)> = vec![
        (
            "𐍅𐌿𐌻𐍆𐌹𐌻𐌰\n",
            vec![
                0xd800, 0xdf45, 0xd800, 0xdf3f, 0xd800, 0xdf3b, 0xd800, 0xdf46, 0xd800, 0xdf39,
                0xd800, 0xdf3b, 0xd800, 0xdf30, 0x000a,
            ],
        ),
        (
            "𐐒𐑉𐐮𐑀𐐲𐑋 𐐏𐐲𐑍\n",
            vec![
                0xd801, 0xdc12, 0xd801, 0xdc49, 0xd801, 0xdc2e, 0xd801, 0xdc40, 0xd801, 0xdc32,
                0xd801, 0xdc4b, 0x0020, 0xd801, 0xdc0f, 0xd801, 0xdc32, 0xd801, 0xdc4d, 0x000a,
            ],
        ),
        (
            "𐌀𐌖𐌋𐌄𐌑𐌉·𐌌𐌄𐌕𐌄𐌋𐌉𐌑\n",
            vec![
                0xd800, 0xdf00, 0xd800, 0xdf16, 0xd800, 0xdf0b, 0xd800, 0xdf04, 0xd800, 0xdf11,
                0xd800, 0xdf09, 0x00b7, 0xd800, 0xdf0c, 0xd800, 0xdf04, 0xd800, 0xdf15, 0xd800,
                0xdf04, 0xd800, 0xdf0b, 0xd800, 0xdf09, 0xd800, 0xdf11, 0x000a,
            ],
        ),
        (
            "𐒋𐒘𐒈𐒑𐒛𐒒 𐒕𐒓 𐒈𐒚𐒍 𐒏𐒜𐒒𐒖𐒆 𐒕𐒆\n",
            vec![
                0xd801, 0xdc8b, 0xd801, 0xdc98, 0xd801, 0xdc88, 0xd801, 0xdc91, 0xd801, 0xdc9b,
                0xd801, 0xdc92, 0x0020, 0xd801, 0xdc95, 0xd801, 0xdc93, 0x0020, 0xd801, 0xdc88,
                0xd801, 0xdc9a, 0xd801, 0xdc8d, 0x0020, 0xd801, 0xdc8f, 0xd801, 0xdc9c, 0xd801,
                0xdc92, 0xd801, 0xdc96, 0xd801, 0xdc86, 0x0020, 0xd801, 0xdc95, 0xd801, 0xdc86,
                0x000a,
            ],
        ),
    ];
    for (s, u) in pairs.iter() {
        assert!(rope::text::to_utf16(s) == *u);
        assert!(rope::text::from_utf16(u) == *s);
        assert!(rope::text::from_utf16(&rope::text::to_utf16(s)) == *s);
        assert!(rope::text::to_utf16(&rope::text::from_utf16(u)) == *u);
    }
}

#[test]
fn test_escape_unicode() {
    assert_eq!(escape_unicode("abc"), "\\x61\\x62\\x63");
    assert_eq!(escape_unicode("a c"), "\\x61\\x20\\x63");
    assert_eq!(escape_unicode("\r\n\t"), "\\x0d\\x0a\\x09");
    assert_eq!(escape_unicode("'\"\\"), "\\x27\\x22\\x5c");
    assert!(escape_unicode("\x00\x01\u{fe}\u{ff}") == "\\x00\\x01\\xfe\\xff");
    assert_eq!(escape_unicode("\u{100}\u{ffff}"), "\\u0100\\uffff");
    assert!(escape_unicode("\u{10000}\u{10ffff}") == "\\U00010000\\U0010ffff");
    assert_eq!(escape_unicode("ab\u{fb00}"), "\\x61\\x62\\ufb00");
    assert_eq!(escape_unicode("\u{1d4ea}\r"), "\\U0001d4ea\\x0d");
}

#[test]
fn test_escape_default() {
    assert_eq!(escape_default("abc"), "abc");
    assert_eq!(escape_default("a c"), "a c");
    assert_eq!(escape_default("\r\n\t"), "\\r\\n\\t");
    assert_eq!(escape_default("'\"\\"), "\\'\\\"\\\\");
    assert_eq!(escape_default("\u{100}\u{ffff}"), "\\u0100\\uffff");
    assert!(escape_default("\u{10000}\u{10ffff}") == "\\U00010000\\U0010ffff");
    assert_eq!(escape_default("ab\u{fb00}"), "ab\\ufb00");
    assert_eq!(escape_default("\u{1d4ea}\r"), "\\U0001d4ea\\r");
}

#[test]
fn test_total_ord() {
    assert!(rope::text::cmp("1234", "123") == Ordering::Greater);
    assert!(rope::text::cmp("123", "1234") == Ordering::Less);
    assert!(rope::text::cmp("1234", "1234") == Ordering::Equal);
    assert!(rope::text::cmp("12345555", "123456") == Ordering::Less);
    assert!(rope::text::cmp("22", "1234") == Ordering::Greater);
}

#[test]
fn strings_are_built_from_characters() {
    assert_eq!(rope::text::from_char('中'), "中");
    assert_eq!(rope::text::from_chars(&['a', 'ñ', '中', '𐍅']), "añ中𐍅");
    assert_eq!(rope::text::from_chars(&[]), "");
    assert_eq!(rope::text::append(String::from("ab"), "cd"), "abcd");
    let mut s = String::from("bc");
    rope::text::unshift_char(&mut s, 'a');
    assert_eq!(s, "abc");
}

#[test]
fn strings_are_joined() {
    let owned = vec![String::from("a"), String::from("bc"), String::from("")];
    assert_eq!(rope::text::concat(&owned), "abc");
    assert_eq!(rope::text::connect(&owned, ", "), "a, bc, ");
    assert_eq!(rope::text::concat_slices(&["x", "yz"]), "xyz");
    assert_eq!(rope::text::connect_slices(&["x", "yz", "w"], "-"), "x-yz-w");
    assert_eq!(rope::text::connect_slices(&["x"], "-"), "x");
    assert_eq!(rope::text::connect_slices(&[], "-"), "");
}

#[test]
fn characters_are_found_by_byte_index() {
    let s = "中华Việt Nam";
    let mut i = 0;
    let mut seen: Vec<(usize, char)> = Vec::new();
    while i < rope::text::len(s) {
        let r = rope::text::char_range_at(s, i);
        seen.push((i, r.ch));
        i = r.next;
    }
    assert_eq!(
        seen,
        vec![
            (0, '中'),
            (3, '华'),
            (6, 'V'),
            (7, 'i'),
            (8, 'ệ'),
            (11, 't'),
            (12, ' '),
            (13, 'N'),
            (14, 'a'),
            (15, 'm')
        ]
    );
    assert_eq!(rope::text::char_at(s, 3), '华');
    assert_eq!(rope::text::char_len(s), 10);
    assert_eq!(rope::text::count_chars(s, 3, 11), 4);
    assert_eq!(rope::text::count_bytes(s, 3, 4), 8);
    assert_eq!(rope::text::slice(s, 6, 12), "Việt");
    assert!(rope::text::is_char_boundary(s, 3));
    assert!(!rope::text::is_char_boundary(s, 4));
    assert!(rope::text::is_char_boundary(s, 16));
    assert_eq!(rope::text::char_range_at("𐍅", 0).next, 4);
    assert_eq!(rope::text::char_range_at("ñ", 0).ch, 'ñ');
}

#[test]
fn widths_follow_the_first_byte() {
    assert_eq!(rope::text::utf8_char_width(b'a'), 1);
    assert_eq!(rope::text::utf8_char_width(0x80), 0);
    assert_eq!(rope::text::utf8_char_width(0xc3), 2);
    assert_eq!(rope::text::utf8_char_width(0xe4), 3);
    assert_eq!(rope::text::utf8_char_width(0xf0), 4);
    assert_eq!(rope::text::utf8_char_width(0xf8), 5);
    assert_eq!(rope::text::utf8_char_width(0xfc), 6);
}

#[test]
fn valid_utf8_is_told_from_invalid() {
    assert!(rope::text::is_utf8(b""));
    assert!(rope::text::is_utf8("añ中𐍅".as_bytes()));
    assert!(!rope::text::is_utf8(&[0x80]));
    assert!(!rope::text::is_utf8(&[0xc3]));
    assert!(!rope::text::is_utf8(&[0xc0, 0x80]));
    assert!(!rope::text::is_utf8(&[0xe0, 0x80, 0x80]));
    assert!(!rope::text::is_utf8(&[0xed, 0xa0, 0x80]));
    assert!(!rope::text::is_utf8(&[0xf4, 0x90, 0x80, 0x80]));
    assert!(!rope::text::is_utf8(&[0xf8, 0x88, 0x80, 0x80, 0x80]));
    assert!(!rope::text::is_utf8(&[b'a', 0xe4, 0xb8]));
    assert!(rope::text::is_utf8(&[0xf4, 0x8f, 0xbf, 0xbf]));
}

#[test]
fn utf16_stops_at_zero_and_wants_pairs() {
    assert!(rope::text::is_utf16(&[]));
    assert!(rope::text::is_utf16(&[0x61, 0xd800, 0xdf45]));
    assert!(!rope::text::is_utf16(&[0xd800]));
    assert!(!rope::text::is_utf16(&[0xdf45, 0xd800]));
    assert!(!rope::text::is_utf16(&[0xd800, 0x61]));
    assert_eq!(rope::text::from_utf16(&[0x61, 0x62, 0, 0x63]), "ab");
    assert_eq!(rope::text::to_utf16("a𐍅"), vec![0x61, 0xd800, 0xdf45]);
    let seen = std::cell::RefCell::new(String::new());
    rope::text::utf16_chars(&[0x61, 0xd800, 0xdf45, 0, 0x62], |c: char| {
        seen.borrow_mut().push(c)
    });
    assert_eq!(*seen.borrow(), "a𐍅");
}

#[test]
fn bytewise_order_is_total() {
    let words = ["", "a", "ab", "b", "é", "中"];
    for (i, a) in words.iter().enumerate() {
        for (j, b) in words.iter().enumerate() {
            assert_eq!(rope::text::lt(a, b), i < j);
            assert_eq!(le(a, b), i <= j);
            assert_eq!(rope::text::gt(a, b), i > j);
            assert_eq!(rope::text::ge(a, b), i >= j);
            assert_eq!(rope::text::eq_slice(a, b), i == j);
            assert_eq!(rope::text::cmp(a, b), i.cmp(&j));
        }
    }
}

#[test]
fn test_map() {
    assert_eq!("", rope::text::map("", |c: char| c.to_ascii_uppercase()));
    assert_eq!("YMCA", rope::text::map("ymca", |c: char| c.to_ascii_uppercase()));
}

#[test]
fn needles_are_found_at_their_byte() {
    assert_eq!(rope::text::find_str("中华Việt", "Vi"), Some(6));
    assert_eq!(rope::text::find_str("abcabc", "bc"), Some(1));
    assert_eq!(rope::text::find_str("abc", ""), Some(0));
    assert_eq!(rope::text::find_str("abc", "abcd"), None);
    assert_eq!(rope::text::find_str_between("abcabc", "bc", 2, 6), Some(4));
    assert_eq!(rope::text::find_str_between("abcabc", "bc", 2, 5), None);
    assert!(rope::text::match_at("abcabc", "ca", 2));
    assert!(!rope::text::match_at("abcabc", "ca", 3));
}

#[test]
fn string_lists_write_themselves_out() {
    let owned = vec![String::from("a"), String::from("bc")];
    let list: &[String] = &owned;
    assert_eq!(StrVector::concat(&list), "abc");
    assert_eq!(StrVector::connect(&list, "+"), "a+bc");
    let slices: &[&str] = &["x", "", "yz"];
    assert_eq!(StrVector::concat(&slices), "xyz");
    assert_eq!(StrVector::connect(&slices, "/"), "x//yz");
}

#[test]
fn owned_strings_grow_at_the_end() {
    let mut s = String::from("a");
    OwnedStr::push_str(&mut s, "bc");
    OwnedStr::push_char(&mut s, '中');
    assert_eq!(s, "abc中");
}

#[test]
fn a_character_separates_at_itself() {
    assert!(StrCharSplitSeparator::should_split(&'a', 'a'));
    assert!(!StrCharSplitSeparator::should_split(&'a', 'b'));
    assert!(StrCharSplitSeparator::only_ascii(&'a'));
    assert!(!StrCharSplitSeparator::only_ascii(&'中'));
}

#[test]
fn ranges_are_tested_character_by_character() {
    let s = "ab中cd";
    let seen = std::cell::RefCell::new(String::new());
    let lower = |c: char| {
        seen.borrow_mut().push(c);
        c.is_ascii_lowercase()
    };
    assert!(rope::text::all_between(s, 0, 2, &lower));
    assert_eq!(*seen.borrow(), "ab");
    assert!(!rope::text::all_between(s, 1, 7, &lower));
    assert_eq!(*seen.borrow(), "abb中");
    assert!(rope::text::all_between(s, 3, 3, &lower));
    let wide = |c: char| c.len_utf8() > 1;
    assert!(rope::text::any_between(s, 0, 7, &wide));
    assert!(!rope::text::any_between(s, 5, 7, &wide));
    assert!(!rope::text::any_between(s, 2, 2, &wide));
}

#[test]
fn test_eq_slice() {
    assert!(rope::text::eq_slice(rope::text::slice("foobar", 0, 3), "foo"));
    assert!(rope::text::eq_slice(rope::text::slice("barfoo", 3, 6), "foo"));
    assert!(!rope::text::eq_slice("foo1", "foo2"));
}

#[test]
fn test_len() {
    assert_eq!(rope::text::len(""), 0);
    assert_eq!(rope::text::len("hello world"), 11);
    assert_eq!(rope::text::len("\x63"), 1);
    assert_eq!(rope::text::len("\u{a2}"), 2);
    assert_eq!(rope::text::len("\u{3c0}"), 2);
    assert_eq!(rope::text::len("\u{2620}"), 3);
    assert_eq!(rope::text::len("\u{1d11e}"), 4);

    assert_eq!(rope::text::char_len(""), 0);
    assert_eq!(rope::text::char_len("hello world"), 11);
    assert_eq!(rope::text::char_len("\x63"), 1);
    assert_eq!(rope::text::char_len("\u{a2}"), 1);
    assert_eq!(rope::text::char_len("\u{3c0}"), 1);
    assert_eq!(rope::text::char_len("\u{2620}"), 1);
    assert_eq!(rope::text::char_len("\u{1d11e}"), 1);
    assert_eq!(rope::text::char_len("ประเทศไทย中华Việt Nam"), 19);
}

#[test]
fn test_find_str() {
    let find_str = rope::text::find_str;
    // byte positions
    assert!(find_str("banana", "apple pie").is_none());
    assert_eq!(find_str("", ""), Some(0));

    let data = "ประเทศไทย中华Việt Nam";
    assert_eq!(find_str(data, ""), Some(0));
    assert_eq!(find_str(data, "ประเ"), Some(0));
    assert_eq!(find_str(data, "ะเ"), Some(6));
    assert_eq!(find_str(data, "中华"), Some(27));
    assert!(find_str(data, "ไท华").is_none());
}

#[test]
fn test_find_str_between() {
    let find_str_between = rope::text::find_str_between;
    // byte positions
    assert_eq!(find_str_between("", "", 0, 0), Some(0));

    let data = "abcabc";
    assert_eq!(find_str_between(data, "ab", 0, 6), Some(0));
    assert_eq!(find_str_between(data, "ab", 2, 6), Some(3));
    assert!(find_str_between(data, "ab", 2, 4).is_none());

    let mut data = String::from("ประเทศไทย中华Việt Nam");
    data = format!("{}{}", data, data);
    assert_eq!(find_str_between(&data, "", 0, 43), Some(0));
    assert_eq!(find_str_between(&data, "", 6, 43), Some(6));

    assert_eq!(find_str_between(&data, "ประ", 0, 43), Some(0));
    assert_eq!(find_str_between(&data, "ทศไ", 0, 43), Some(12));
    assert_eq!(find_str_between(&data, "ย中", 0, 43), Some(24));
    assert_eq!(find_str_between(&data, "iệt", 0, 43), Some(34));
    assert_eq!(find_str_between(&data, "Nam", 0, 43), Some(40));

    assert_eq!(find_str_between(&data, "ประ", 43, 86), Some(43));
    assert_eq!(find_str_between(&data, "ทศไ", 43, 86), Some(55));
    assert_eq!(find_str_between(&data, "ย中", 43, 86), Some(67));
    assert_eq!(find_str_between(&data, "iệt", 43, 86), Some(77));
    assert_eq!(find_str_between(&data, "Nam", 43, 86), Some(83));
}

#[test]
fn test_substr() {
    fn t(a: &str, b: &str, start: usize) {
        assert_eq!(rope::text::substr(a, start, b.len()), b);
    }
    t("hello", "llo", 2);
    t("hello", "el", 1);
    assert_eq!("ะเทศไท", rope::text::substr("ประเทศไทย中华Việt Nam", 6, 6));
}

#[test]
fn test_concat() {
    fn t(v: &[String], s: &str) {
        assert_eq!(rope::text::concat(v), s.to_string());
        assert_eq!(StrVector::concat(&v), s.to_string());
    }
    t(
        &[
            String::from("you"),
            String::from("know"),
            String::from("I'm"),
            String::from("no"),
            String::from("good"),
        ],
        "youknowI'mnogood",
    );
    let v: &[String] = &[];
    t(v, "");
    t(&[String::from("hi")], "hi");
}

#[test]
fn test_connect() {
    fn t(v: &[String], sep: &str, s: &str) {
        assert_eq!(rope::text::connect(v, sep), s.to_string());
        assert_eq!(StrVector::connect(&v, sep), s.to_string());
    }
    t(
        &[
            String::from("you"),
            String::from("know"),
            String::from("I'm"),
            String::from("no"),
            String::from("good"),
        ],
        " ",
        "you know I'm no good",
    );
    let v: &[String] = &[];
    t(v, " ", "");
    t(&[String::from("hi")], " ", "hi");
}

#[test]
fn test_concat_slices() {
    fn t(v: &[&str], s: &str) {
        assert_eq!(rope::text::concat_slices(v), s.to_string());
        assert_eq!(StrVector::concat(&v), s.to_string());
    }
    t(&["you", "know", "I'm", "no", "good"], "youknowI'mnogood");
    let v: &[&str] = &[];
    t(v, "");
    t(&["hi"], "hi");
}

#[test]
fn test_connect_slices() {
    fn t(v: &[&str], sep: &str, s: &str) {
        assert_eq!(rope::text::connect_slices(v, sep), s.to_string());
        assert_eq!(StrVector::connect(&v, sep), s.to_string());
    }
    t(&["you", "know", "I'm", "no", "good"], " ", "you know I'm no good");
    t(&[], " ", "");
    t(&["hi"], " ", "hi");
}

#[test]
fn test_slice() {
    let slice = rope::text::slice;
    assert_eq!("ab", slice("abc", 0, 2));
    assert_eq!("bc", slice("abc", 1, 3));
    assert_eq!("", slice("abc", 1, 1));
    assert_eq!("\u{65e5}", slice("\u{65e5}\u{672c}", 0, 3));

    let data = "ประเทศไทย中华";
    assert_eq!("ป", slice(data, 0, 3));
    assert_eq!("ร", slice(data, 3, 6));
    assert_eq!("", slice(data, 3, 3));
    assert_eq!("华", slice(data, 30, 33));

    fn a_million_letter_x() -> String {
        let mut i = 0;
        let mut rs = String::new();
        while i < 100000 {
            OwnedStr::push_str(&mut rs, "华华华华华华华华华华");
            i += 1;
        }
        rs
    }
    fn half_a_million_letter_x() -> String {
        let mut i = 0;
        let mut rs = String::new();
        while i < 100000 {
            OwnedStr::push_str(&mut rs, "华华华华华");
            i += 1;
        }
        rs
    }
    let letters = a_million_letter_x();
    assert!(half_a_million_letter_x() == slice(&letters, 0, 3 * 500000).to_owned());
}

#[test]
fn test_slice_2() {
    let slice = rope::text::slice;
    let ss = "中华Việt Nam";

    assert_eq!("华", slice(ss, 3, 6));
    assert_eq!("Việt Nam", slice(ss, 6, 16));

    assert_eq!("ab", slice("abc", 0, 2));
    assert_eq!("bc", slice("abc", 1, 3));
    assert_eq!("", slice("abc", 1, 1));

    assert_eq!("中", slice(ss, 0, 3));
    assert_eq!("华V", slice(ss, 3, 7));
    assert_eq!("", slice(ss, 3, 3));
}

#[test]
fn test_char_at() {
    let s = "ศไทย中华Việt Nam";
    let v = vec!['ศ', 'ไ', 'ท', 'ย', '中', '华', 'V', 'i', 'ệ', 't', ' ', 'N', 'a', 'm'];
    let mut pos = 0;
    for ch in v.iter() {
        assert!(rope::text::char_at(s, pos) == *ch);
        pos += rope::text::len(&rope::text::from_char(*ch));
    }
}
