use rope::node::char_iterator::CharIterator;
use rope::iterator::character;
use rope::iterator::leaf;
use rope::node::{Leaf, Node, Root, MAX_LEAF_CHAR_LEN, MAX_NODE_HEIGHT};
use rope::rope::{
    append_char, append_rope, append_str, bal, byte_len, char_at, char_len, cmp, empty, eq, ge,
    gt, height, iter_chars, le, loop_chars, loop_leaves, lt, of_str, of_substr, prepend_char,
    prepend_str, sub_bytes, sub_chars, to_string,
};
use std::cell::RefCell;
use std::sync::Arc;

fn adopt(s: &str) -> Root {
    of_str(Arc::new(String::from(s)))
}

fn rope_to_string(r: &Root) -> String {
    fn aux(out: &mut String, node: &Node) {
        match node {
            Node::Leaf(x) => {
                out.push_str(&x.content[x.byte_offset..x.byte_offset + x.byte_len]);
            }
            Node::Concat(x) => {
                aux(out, &x.left);
                aux(out, &x.right);
            }
        }
    }
    match r {
        Root::Empty => String::new(),
        Root::Content(x) => {
            let mut out = String::new();
            aux(&mut out, x);
            out
        }
    }
}

fn doubled(init: &str, times: usize) -> String {
    let mut buf = String::from(init);
    for _ in 0..times {
        buf = format!("{}{}", buf, buf);
    }
    buf
}

fn collect_chars(it: &mut CharIterator) -> String {
    let mut out = String::new();
    loop {
        match character::next(it) {
            None => break,
            Some(c) => out.push(c),
        }
    }
    out
}

#[test]
fn trivial() {
    assert!(char_len(&empty()) == 0);
    assert!(byte_len(&empty()) == 0);
}

#[test]
fn of_string1() {
    let sample = "0123456789ABCDE";
    let r = adopt(sample);

    assert!(char_len(&r) == sample.chars().count());
    assert!(rope_to_string(&r) == sample);
}

#[test]
fn of_string2() {
    let sample = doubled("1234567890", 10);
    let r = adopt(&sample);
    assert!(char_len(&r) == sample.chars().count());
    assert!(rope_to_string(&r) == sample);

    let mut string_iter = sample.chars();
    let mut rope_iter = character::start(&r);
    let mut equal = true;
    while equal {
        match rope::node::char_iterator::next(&mut rope_iter) {
            None => {
                if string_iter.next().is_some() {
                    equal = false;
                }
                break;
            }
            Some(c) => {
                if string_iter.next() != Some(c) {
                    equal = false;
                    break;
                }
            }
        }
    }

    assert!(equal);
}

#[test]
fn iter1() {
    let sample = doubled("1234567890", 10);
    let r = adopt(&sample);

    let mut len = 0;
    let mut it = character::start(&r);
    loop {
        match rope::node::char_iterator::next(&mut it) {
            None => break,
            Some(_) => len += 1,
        }
    }

    assert!(len == sample.chars().count());
}

#[test]
fn bal1() {
    let init = "1234567890";
    let sample = doubled(init, 8);
    let r1 = adopt(&sample);
    let mut r2 = adopt(init);
    for _ in 0..8 {
        r2 = append_rope(&r2, &r2);
    }

    assert!(eq(&r1, &r2));
    let r3 = bal(&r2);
    assert!(char_len(&r1) == char_len(&r3));

    assert!(eq(&r1, &r3));
}

#[test]
fn char_at1() {
    // Generate a large rope
    let mut r = adopt("123456789");
    for _ in 0..10 {
        r = append_rope(&r, &r);
    }

    // Copy it in the slowest possible way
    let mut r2 = empty();
    for i in 0..char_len(&r) {
        r2 = append_char(&r2, char_at(&r, i));
    }
    assert!(eq(&r, &r2));

    let mut r3 = empty();
    for i in 0..char_len(&r) {
        r3 = prepend_char(&r3, char_at(&r, char_len(&r) - i - 1));
    }
    assert!(eq(&r, &r3));

    // Additional sanity checks
    let balr = bal(&r);
    let bal2 = bal(&r2);
    let bal3 = bal(&r3);
    assert!(eq(&r, &balr));
    assert!(eq(&r, &bal2));
    assert!(eq(&r, &bal3));
    assert!(eq(&r2, &r3));
    assert!(eq(&bal2, &bal3));
}

#[test]
fn concat1() {
    // Generate a reasonable rope
    let chunk = adopt("123456789");
    let mut r = empty();
    for _ in 0..10 {
        r = append_rope(&r, &chunk);
    }

    // Same rope, obtained with rope::concat
    let r2 = rope::rope::concat(&vec![chunk.clone(); 10]);

    assert!(eq(&r, &r2));
}

#[test]
fn empty_string_gives_the_empty_rope() {
    let r = adopt("");
    assert!(matches!(r, Root::Empty));
    assert_eq!(char_len(&r), 0);
    assert_eq!(byte_len(&r), 0);
    assert_eq!(height(&r), 0);
    assert_eq!(to_string(&r), "");
}

#[test]
fn chars_come_out_in_order() {
    let r = adopt("0123456789ABCDE");
    let mut it = character::start(&r);
    assert_eq!(collect_chars(&mut it), "0123456789ABCDE");
    assert_eq!(character::next(&mut it), None);
}

#[test]
fn round_trip_keeps_every_character() {
    for s in ["", "a", "héllo wörld", "ประเทศไทย中华Việt Nam", "𐍅𐌿𐌻𐍆𐌹𐌻𐌰\n"] {
        assert_eq!(to_string(&adopt(s)), s);
    }
    let long = doubled("añ中𐍅", 9);
    let r = adopt(&long);
    assert_eq!(to_string(&r), long);
    assert_eq!(rope_to_string(&r), long);
}

#[test]
fn lengths_count_characters_and_bytes() {
    let s = "añ中𐍅";
    let r = adopt(s);
    assert_eq!(char_len(&r), 4);
    assert_eq!(byte_len(&r), 10);
    let mut it = character::start(&r);
    let seen = collect_chars(&mut it);
    assert_eq!(seen.chars().count(), char_len(&r));
    assert_eq!(seen.len(), byte_len(&r));
}

#[test]
fn long_text_is_cut_into_leaves() {
    let s = "x".repeat(2 * MAX_LEAF_CHAR_LEN + 1);
    let r = adopt(&s);
    let mut it = leaf::start(&r);
    let mut sizes: Vec<usize> = Vec::new();
    loop {
        match leaf::next(&mut it) {
            None => break,
            Some(l) => sizes.push(l.char_len),
        }
    }
    assert_eq!(sizes, vec![1, MAX_LEAF_CHAR_LEN, MAX_LEAF_CHAR_LEN]);
    assert_eq!(height(&r), 2);

    let one = adopt(&"y".repeat(MAX_LEAF_CHAR_LEN));
    assert_eq!(height(&one), 0);
    let four = adopt(&"z".repeat(4 * MAX_LEAF_CHAR_LEN));
    assert_eq!(height(&four), 2);
    let five = adopt(&"z".repeat(4 * MAX_LEAF_CHAR_LEN + 1));
    assert_eq!(height(&five), 3);
}

#[test]
fn append_has_empty_as_identity_and_grows_by_one() {
    let a = adopt("left");
    let e = empty();
    assert_eq!(to_string(&append_rope(&e, &a)), "left");
    assert_eq!(to_string(&append_rope(&a, &e)), "left");
    assert_eq!(height(&append_rope(&e, &a)), 0);
    let b = adopt("right");
    let ab = append_rope(&a, &b);
    assert_eq!(to_string(&ab), "leftright");
    assert_eq!(height(&ab), 1);
    assert_eq!(char_len(&ab), 9);
    assert_eq!(byte_len(&ab), 9);
    let abab = append_rope(&ab, &ab);
    assert_eq!(height(&abab), 2);
    // The ropes that went in are as they were.
    assert_eq!(to_string(&a), "left");
    assert_eq!(to_string(&ab), "leftright");
}

#[test]
fn append_is_associative_in_text() {
    let a = adopt("ab中");
    let b = adopt("cd");
    let c = adopt("𐍅ef");
    let left = append_rope(&append_rope(&a, &b), &c);
    let right = append_rope(&a, &append_rope(&b, &c));
    assert_eq!(to_string(&left), "ab中cd𐍅ef");
    assert_eq!(to_string(&left), to_string(&right));
    assert!(eq(&left, &right));
}

#[test]
fn strings_and_chars_go_to_either_end() {
    let r = adopt("middle");
    assert_eq!(to_string(&append_str(&r, Arc::new(String::from("-end")))), "middle-end");
    assert_eq!(to_string(&prepend_str(&r, Arc::new(String::from("start-")))), "start-middle");
    assert_eq!(to_string(&append_char(&r, '中')), "middle中");
    assert_eq!(to_string(&prepend_char(&r, '𐍅')), "𐍅middle");
    assert_eq!(to_string(&append_char(&empty(), 'x')), "x");
}

#[test]
fn sub_chars_takes_the_characters_between() {
    let s = "añ中𐍅bcdef";
    let r = append_rope(&adopt("añ中"), &append_rope(&adopt("𐍅bc"), &adopt("def")));
    assert_eq!(to_string(&r), s);
    let chars: Vec<char> = s.chars().collect();
    for offset in 0..=chars.len() {
        for len in 0..=(chars.len() - offset) {
            let expected: String = chars[offset..offset + len].iter().collect();
            let part = sub_chars(&r, offset, len);
            assert_eq!(to_string(&part), expected);
            assert_eq!(char_len(&part), len);
            assert!(height(&part) <= height(&r));
        }
    }
}

#[test]
fn sub_chars_of_nothing_is_empty() {
    assert!(matches!(sub_chars(&adopt("some text"), 0, 0), Root::Empty));
    assert!(matches!(sub_chars(&adopt("some text"), 4, 0), Root::Empty));
    assert!(matches!(sub_chars(&empty(), 0, 0), Root::Empty));
    assert!(matches!(sub_bytes(&adopt("some text"), 0, 0), Root::Empty));
}

#[test]
fn sub_chars_shares_the_buffers() {
    let buffer = Arc::new(doubled("0123456789", 6));
    let r = of_str(buffer.clone());
    let part = sub_chars(&r, 100, 400);
    assert_eq!(to_string(&part), buffer[100..500]);
    let seen = RefCell::new(0);
    assert!(loop_leaves(&part, |l: Leaf| {
        *seen.borrow_mut() += 1;
        Arc::ptr_eq(&l.content, &buffer)
    }));
    assert!(*seen.borrow() >= 2);
}

#[test]
fn sub_bytes_takes_the_bytes_between() {
    let r = append_rope(&adopt("añ中"), &append_rope(&adopt("𐍅bc"), &adopt("def")));
    assert_eq!(to_string(&sub_bytes(&r, 0, 15)), "añ中𐍅bcdef");
    assert_eq!(to_string(&sub_bytes(&r, 1, 2)), "ñ");
    assert_eq!(to_string(&sub_bytes(&r, 3, 7)), "中𐍅");
    assert_eq!(to_string(&sub_bytes(&r, 6, 9)), "𐍅bcdef");
    assert_eq!(to_string(&sub_bytes(&r, 11, 3)), "cde");
    assert_eq!(char_len(&sub_bytes(&r, 3, 7)), 2);
    assert_eq!(byte_len(&sub_bytes(&r, 3, 7)), 7);
}

#[test]
fn of_substr_adopts_a_part() {
    let buffer = Arc::new(String::from("añ中𐍅bc"));
    assert_eq!(to_string(&of_substr(buffer.clone(), 1, 5)), "ñ中");
    assert_eq!(to_string(&of_substr(buffer.clone(), 6, 6)), "𐍅bc");
    assert!(matches!(of_substr(buffer.clone(), 3, 0), Root::Empty));
    assert!(matches!(of_substr(buffer, 100, 0), Root::Empty));
}

#[test]
fn balancing_keeps_the_text_and_lowers_the_rope() {
    let mut r = adopt("1234567890");
    for _ in 0..10 {
        r = append_rope(&r, &r);
    }
    assert_eq!(char_len(&r), 10240);
    let mut tall = r.clone();
    for _ in 0..20 {
        tall = append_rope(&tall, &adopt("x"));
    }
    assert!(height(&tall) >= MAX_NODE_HEIGHT);
    let balanced = bal(&tall);
    assert_eq!(to_string(&balanced), to_string(&tall));
    assert!(height(&balanced) < MAX_NODE_HEIGHT);
    assert!(height(&balanced) <= height(&tall));

    // Below the limit, balancing leaves the rope as it is.
    assert!(height(&r) < MAX_NODE_HEIGHT);
    let same = bal(&r);
    assert_eq!(height(&same), height(&r));
    assert_eq!(to_string(&same), to_string(&r));
    assert!(matches!(bal(&empty()), Root::Empty));
}

#[test]
fn balancing_merges_small_leaves() {
    let mut r = empty();
    for i in 0..600 {
        r = append_char(&r, if i % 2 == 0 { 'a' } else { '中' });
    }
    assert_eq!(height(&r), 599);
    let balanced = bal(&r);
    assert_eq!(to_string(&balanced), to_string(&r));
    assert_eq!(char_len(&balanced), 600);
    assert_eq!(byte_len(&balanced), 1200);
    assert!(height(&balanced) < MAX_NODE_HEIGHT);
    let leaves = RefCell::new(0);
    assert!(loop_leaves(&balanced, |_l: Leaf| {
        *leaves.borrow_mut() += 1;
        true
    }));
    assert!(*leaves.borrow() < 600);
}

#[test]
fn comparison_looks_at_the_text_only() {
    let one = append_rope(&adopt("ab"), &adopt("cd"));
    let other = append_rope(&adopt("a"), &append_rope(&adopt("bc"), &adopt("d")));
    let whole = adopt("abcd");
    assert_eq!(cmp(&one, &other), 0);
    assert_eq!(cmp(&one, &whole), 0);
    assert!(eq(&other, &whole));
    assert_eq!(cmp(&empty(), &empty()), 0);
}

#[test]
fn comparison_is_lexicographic_by_code_point() {
    let cases = [
        ("", "a", -1),
        ("a", "", 1),
        ("abc", "abd", -1),
        ("abd", "abc", 1),
        ("abc", "abcd", -1),
        ("abcd", "abc", 1),
        ("b", "abc", 1),
        ("é", "z", 1),
        ("z", "中", -1),
        ("中", "𐍅", -1),
        ("same", "same", 0),
    ];
    for (a, b, expected) in cases {
        let ra = adopt(a);
        let rb = adopt(b);
        assert_eq!(cmp(&ra, &rb), expected);
        assert_eq!(cmp(&rb, &ra), -expected);
        assert_eq!(eq(&ra, &rb), expected == 0);
        assert_eq!(lt(&ra, &rb), expected < 0);
        assert_eq!(le(&ra, &rb), expected <= 0);
        assert_eq!(gt(&ra, &rb), expected > 0);
        assert_eq!(ge(&ra, &rb), expected >= 0);
    }
}

#[test]
fn char_at_finds_every_character() {
    let s = "añ中𐍅bcdef";
    let r = append_rope(&adopt("añ中"), &append_rope(&adopt("𐍅bc"), &adopt("def")));
    for (i, c) in s.chars().enumerate() {
        assert_eq!(char_at(&r, i), c);
    }
    let part = sub_chars(&r, 2, 5);
    assert_eq!(char_at(&part, 0), '中');
    assert_eq!(char_at(&part, 4), 'd');
}

#[test]
fn loops_stop_when_told() {
    let r = append_rope(&adopt("abc"), &adopt("def"));
    let seen = RefCell::new(String::new());
    let finished = loop_chars(&r, |c: char| {
        seen.borrow_mut().push(c);
        c != 'd'
    });
    assert!(!finished);
    assert_eq!(*seen.borrow(), "abcd");

    let all = RefCell::new(String::new());
    assert!(loop_chars(&r, |c: char| {
        all.borrow_mut().push(c);
        true
    }));
    assert_eq!(*all.borrow(), "abcdef");

    let each = RefCell::new(String::new());
    iter_chars(&r, |c: char| each.borrow_mut().push(c));
    assert_eq!(*each.borrow(), "abcdef");

    let leaves = RefCell::new(Vec::new());
    let finished = loop_leaves(&r, |l: Leaf| {
        leaves.borrow_mut().push(l.char_len);
        false
    });
    assert!(!finished);
    assert_eq!(*leaves.borrow(), vec![3]);
    assert!(loop_chars(&empty(), |_c: char| false));
    assert!(loop_leaves(&empty(), |_l: Leaf| false));
}

#[test]
fn leaves_come_out_left_to_right() {
    let r = append_rope(&adopt("one"), &append_rope(&adopt("three"), &adopt("five5")));
    let mut it = leaf::start(&r);
    let mut texts: Vec<String> = Vec::new();
    loop {
        match leaf::next(&mut it) {
            None => break,
            Some(l) => {
                texts.push(String::from(&l.content[l.byte_offset..l.byte_offset + l.byte_len]))
            }
        }
    }
    assert_eq!(texts, vec!["one", "three", "five5"]);
    assert!(leaf::next(&mut it).is_none());
    let mut none = leaf::start(&empty());
    assert!(leaf::next(&mut none).is_none());
}

#[test]
fn flatten_makes_one_leaf() {
    let r = append_rope(&adopt("añ"), &adopt("中𐍅"));
    match &r {
        Root::Content(x) => {
            let flat = rope::node::flatten(x);
            assert!(matches!(&*flat, Node::Leaf(_)));
            assert_eq!(rope::node::serialize_node(&flat), "añ中𐍅");
            assert_eq!(rope::node::height(&flat), 0);
            assert_eq!(rope::node::char_len(&flat), 4);
            assert_eq!(rope::node::byte_len(&flat), 10);
        }
        Root::Empty => panic!("a rope with text is not empty"),
    }
}

#[test]
fn a_doubled_rope_stays_low_when_balanced() {
    let mut r = adopt("1234567890");
    for _ in 0..10 {
        r = append_rope(&r, &r);
    }
    assert_eq!(char_len(&r), 10240);
    let balanced = bal(&r);
    assert_eq!(to_string(&balanced), doubled("1234567890", 10));
    assert!(eq(&balanced, &r));
    assert!(height(&balanced) < MAX_NODE_HEIGHT);
}

#[test]
fn ropes_over_different_buffers_compare_by_text() {
    let one = append_rope(&adopt("héllo "), &adopt("wörld"));
    let other = append_rope(&adopt("hé"), &adopt("llo wörld"));
    assert_eq!(cmp(&one, &other), 0);
    assert!(eq(&one, &other));
    let later = append_rope(&adopt("héllo "), &adopt("wörle"));
    assert_eq!(cmp(&one, &later), -1);
    assert_eq!(cmp(&later, &one), 1);
}
