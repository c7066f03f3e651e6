use rusty_broom::clock::{later, time_of_reading, Duration, Timestamp};
use rusty_broom::order::Order;
use rusty_broom::path::{order_paths, sorted_unique, FsPath};
use rusty_broom::places::place_at;
use rusty_broom::text::{
    contains_text, decimal, is_white_space, join, order_texts, pad_left, pad_right, split_chars, trim,
};

#[test]
fn white_space_is_what_unicode_says() {
    for n in 0..0x3100u32 {
        if let Some(c) = char::from_u32(n) {
            assert_eq!(is_white_space(c), c.is_whitespace(), "{n:x}");
        }
    }
    assert!(!is_white_space('\u{10ffff}'));
}

#[test]
fn small_text_operations() {
    let chars: Vec<char> = " \t a b \n".chars().collect();
    assert_eq!(trim(&chars), vec!['a', ' ', 'b']);
    assert!(contains_text("haystack", "st"));
    assert!(contains_text("x", ""));
    assert!(!contains_text("ab", "abc"));
    assert_eq!(decimal(u64::MAX), u64::MAX.to_string());
    assert_eq!(join(&vec!["a".to_string(), "b".to_string()], "+"), "a+b");
    assert_eq!(pad_left("ab", 4), "  ab");
    assert_eq!(pad_right("\u{e9}", 3), "\u{e9}  ");
    assert_eq!(pad_right("long", 2), "long");
    assert_eq!(order_texts("ab", "b"), Order::Before);
    assert_eq!(order_texts("b", "ab"), Order::After);
    assert_eq!(order_texts("a", "a"), Order::Same);
    let pieces = split_chars(&"/a//b".chars().collect(), '/');
    assert_eq!(pieces, ["", "a", "", "b"]);
}

#[test]
fn paths_compare_as_their_components() {
    let texts = [
        "/", "/a", "/a/b", "/a/b/", "//a//b", "/a/./b", "a", "./a", "a/b", "..", "../a", "", ".",
        "/a-b", "/a/b-c", "a//b/", "/A", "/ab/c", "/a//b/.//c/.", "///", "/.", "a/./b/..//c/", "./.",
        "/./a/", ".//a//./b/",
    ];
    for x in texts {
        for y in texts {
            let (p, q) = (std::path::Path::new(x), std::path::Path::new(y));
            let (a, b) = (FsPath::from_text(x), FsPath::from_text(y));
            assert_eq!(a.same(&b), p == q, "{x} {y}");
            assert_eq!(a.within(&b), p.starts_with(q), "{x} {y}");
            let order = match order_paths(&a, &b) {
                Order::Before => std::cmp::Ordering::Less,
                Order::Same => std::cmp::Ordering::Equal,
                Order::After => std::cmp::Ordering::Greater,
            };
            assert_eq!(order, p.cmp(q), "{x} {y}");
            let rest = a.strip_prefix(&b).map(|r| r.to_text());
            let expected = p.strip_prefix(q).ok().map(|r| r.to_string_lossy().into_owned());
            assert_eq!(rest, expected, "{x} {y}");
            assert_eq!(a == b, p == q, "{x} {y}");
            let shown = p.strip_prefix(q).unwrap_or(p).display().to_string();
            assert_eq!(a.relative_to(&b).to_text(), shown, "{x} {y}");
        }
    }
}

#[test]
fn paths_are_read_back_from_their_text() {
    for text in ["/", "/a/b", "a/b", "..", "../x", "./y", ""] {
        let path = FsPath::from_text(text);
        assert_eq!(FsPath::from_bytes(&path.to_bytes()), path);
        assert_eq!(path.to_text(), text);
        assert_eq!(path.plain().to_text(), text);
    }
    assert_eq!(FsPath::from_bytes(b"/a/\xff").to_text(), "/a/\u{fffd}");
}

#[test]
fn paths_are_shown_as_they_were_given() {
    let given = FsPath::from_text("/a//b/./c/");
    assert_eq!(given, FsPath::from_text("/a/b/c"));
    assert_eq!(given.to_text(), "/a//b/./c/");
    assert_eq!(given.plain().to_text(), "/a/b/c");
    assert_eq!(given.upto(2).to_text(), "/a");
    for text in ["/a//b/./c/", "/a", "/", "", "x", "x//"] {
        let joined = std::path::Path::new(text).join("name");
        let child = FsPath::from_text(text).entry("name");
        assert_eq!(child.to_text(), joined.to_string_lossy(), "{text}");
        assert_eq!(child, FsPath::from_text(&child.to_text()), "{text}");
    }
}

#[test]
fn sorting_drops_repetitions() {
    let list: Vec<FsPath> = ["/b", "/a/c", "/a", "/b", "/a-"].map(FsPath::from_text).into();
    let sorted: Vec<String> = sorted_unique(&list).iter().map(|p| p.to_text()).collect();
    assert_eq!(sorted, ["/a", "/a/c", "/a-", "/b"]);
    // Of the same path, the first spelling stays.
    let list: Vec<FsPath> = ["/b/", "/a//c", "/b", "/a/c/"].map(FsPath::from_text).into();
    let sorted: Vec<String> = sorted_unique(&list).iter().map(|p| p.to_text()).collect();
    assert_eq!(sorted, ["/a//c", "/b/"]);
}

#[test]
fn time_runs_forward() {
    let a = Timestamp::new(-5, 900_000_000);
    let b = Timestamp::new(3, 100_000_000);
    assert_eq!(a.until(&b), Duration::new(7, 200_000_000));
    assert_eq!(later(Some(a), Some(b)), Some(b));
    assert_eq!(later(Some(a), None), Some(a));
    assert_eq!(later(None, None), None);
    assert_eq!(a.unix_seconds(), None);
    assert_eq!(b.unix_seconds(), Some(3));
    assert!(Duration::new(9, 1).is_past(&Duration::from_secs(5), 4));
    assert!(!Duration::from_secs(9).is_past(&Duration::from_secs(5), 4));
}

#[test]
fn the_clock_is_read_on_both_sides_of_the_epoch() {
    assert_eq!(time_of_reading(Ok((5, 7))), Timestamp::new(5, 7));
    assert_eq!(time_of_reading(Err((5, 0))), Timestamp::new(-5, 0));
    assert_eq!(time_of_reading(Err((5, 7))), Timestamp::new(-6, 999_999_993));
    assert_eq!(time_of_reading(Ok((u64::MAX, 1))), Timestamp::new(i64::MAX, 1));
    assert_eq!(time_of_reading(Err((u64::MAX, 0))), Timestamp::new(1 - i64::MAX, 0));
}

#[test]
fn places_are_read_from_their_bytes() {
    let bytes = Some(b"/home//me/".to_vec());
    assert_eq!(place_at(bytes), Some(FsPath::from_text("/home/me")));
    assert_eq!(place_at(None), None);
}
