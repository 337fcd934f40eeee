use presemble::decimal::{i64_text, parse_i64, parse_usize, u64_text};
use presemble::order::{less_or_same, sort_texts};
use presemble::path::{
    join_path, path_components, path_lies_under, split_file_name, text_behind, PathSet, SitePath,
};
use presemble::ranked::ranked_set;
use presemble::table::Table;
use presemble::text::{
    char_is_white, contains, ends_with, get, join, lines, replace, replace_first, split,
    split_whitespace, starts_with, strip_prefix, strip_suffix, trim, trim_end_matches,
    trim_matches, trim_start_matches,
};

const SAMPLES: [&str; 12] = [
    "",
    " ",
    "a",
    "  two words \n",
    "a,b,,c",
    "line one\nline two\r\n\nlast",
    "\u{3000}wide\u{2003}",
    "aaa",
    "/a//b/",
    "ends\n",
    "über größe",
    "\r\n",
];

#[test]
fn white_space_is_that_of_the_standard_library() {
    for n in 0..=0x10ffffu32 {
        if let Some(c) = char::from_u32(n) {
            assert_eq!(char_is_white(c), c.is_whitespace(), "U+{n:04X}");
        }
    }
}

#[test]
fn texts_are_taken_apart_as_by_the_standard_library() {
    for s in SAMPLES {
        assert_eq!(trim(s), s.trim(), "{s:?}");
        assert_eq!(lines(s), s.lines().map(str::to_string).collect::<Vec<_>>(), "{s:?}");
        assert_eq!(
            split_whitespace(s),
            s.split_whitespace().map(str::to_string).collect::<Vec<_>>(),
            "{s:?}"
        );
        for c in [',', '/', 'a', '\n'] {
            assert_eq!(split(s, c), s.split(c).map(str::to_string).collect::<Vec<_>>());
            assert_eq!(trim_matches(s, c), s.trim_matches(c));
            assert_eq!(trim_start_matches(s, c), s.trim_start_matches(c));
            assert_eq!(trim_end_matches(s, c), s.trim_end_matches(c));
        }
        for p in ["", "a", "aa", " ", "/", "\n"] {
            assert_eq!(contains(s, p), s.contains(p));
            assert_eq!(starts_with(s, p), s.starts_with(p));
            assert_eq!(ends_with(s, p), s.ends_with(p));
            assert_eq!(strip_prefix(s, p).as_deref(), s.strip_prefix(p));
            assert_eq!(strip_suffix(s, p).as_deref(), s.strip_suffix(p));
            assert_eq!(replace_first(s, p, "X"), s.replacen(p, "X", 1), "{s:?} {p:?}");
            if !p.is_empty() {
                assert_eq!(replace(s, p, "X"), s.replace(p, "X"));
            }
        }
        for from in 0..=s.len() + 1 {
            for to in 0..=s.len() + 1 {
                let expected = if from <= to { s.get(from..to) } else { None };
                assert_eq!(get(s, from, to), expected, "{s:?} {from}..{to}");
            }
        }
    }
}

#[test]
fn texts_are_joined() {
    let parts = vec!["a".to_string(), String::new(), "b".to_string()];
    assert_eq!(join(&parts, ", "), "a, , b");
    assert_eq!(join(&Vec::new(), ", "), "");
}

#[test]
fn numerals_read_back() {
    for n in [0u64, 7, 10, 4096, u64::MAX] {
        assert_eq!(u64_text(n), n.to_string());
    }
    for i in [0i64, -1, 42, i64::MIN, i64::MAX] {
        assert_eq!(i64_text(i), i.to_string());
        assert_eq!(parse_i64(&i64_text(i)), Some(i));
    }
    assert_eq!(parse_usize("12"), Some(12));
    for wrong in ["", "-", "x", "1x", "99999999999999999999999"] {
        assert_eq!(parse_usize(wrong), None, "{wrong:?}");
        assert_eq!(parse_i64(wrong), None, "{wrong:?}");
    }
}

#[test]
fn texts_are_ordered_as_by_the_standard_library() {
    for a in SAMPLES {
        for b in SAMPLES {
            assert_eq!(less_or_same(a, b), a <= b, "{a:?} {b:?}");
        }
    }
    let mut expected: Vec<String> = SAMPLES.iter().map(|s| s.to_string()).collect();
    let list = expected.clone();
    expected.sort();
    assert_eq!(sort_texts(&list), expected);
}

#[test]
fn a_ranked_set_is_sorted_and_holds_nothing_twice() {
    let list = ["b", "a", "b", "c", "a"].iter().map(|s| s.to_string()).collect();
    assert_eq!(ranked_set(list), vec!["a".to_string(), "b".to_string(), "c".to_string()]);
    assert!(ranked_set(Vec::<String>::new()).is_empty());
}

#[test]
fn paths_are_made_of_components() {
    assert_eq!(path_components("/a//b/./c/"), vec!["/", "a", "b", "c"]);
    assert_eq!(path_components("./a"), vec![".", "a"]);
    assert_eq!(path_components(""), Vec::<String>::new());
    assert!(SitePath::new("/a/b/").same_as(&SitePath::new("/a//b")));
    assert!(!SitePath::new("/a/b").same_as(&SitePath::new("a/b")));
}

#[test]
fn paths_are_joined_and_taken_apart() {
    assert_eq!(join_path("/site", "content/a.md"), "/site/content/a.md");
    assert_eq!(join_path("/site/", "a"), "/site/a");
    assert_eq!(join_path("/site", "/abs"), "/abs");
    assert_eq!(join_path("", "a"), "a");
    let file = SitePath::new("/site/content/a.md");
    assert!(path_lies_under(&file, &SitePath::new("/site/")));
    assert!(!path_lies_under(&file, &SitePath::new("/sit")));
    assert_eq!(text_behind(&file, 2), "content/a.md");
    assert_eq!(text_behind(&file, 0), "/site/content/a.md");
    let file = SitePath::new("/site//content//post/./a.md/");
    assert_eq!(text_behind(&file, 2), "content//post/./a.md");
    assert_eq!(text_behind(&file, 4), "a.md");
    assert_eq!(text_behind(&file, 5), "");
    assert_eq!(text_behind(&file, 0), "/site//content//post/./a.md");
    assert_eq!(text_behind(&SitePath::new("./a//b"), 1), "a//b");
    assert_eq!(text_behind(&SitePath::new("//"), 0), "/");
    assert_eq!(split_file_name("a.tar.gz"), ("a.tar".to_string(), Some("gz".to_string())));
    assert_eq!(split_file_name(".hidden"), (".hidden".to_string(), None));
    assert_eq!(split_file_name("plain"), ("plain".to_string(), None));
}

#[test]
fn a_path_set_holds_each_path_once() {
    let mut set = PathSet::new();
    assert!(set.is_empty());
    set.insert(SitePath::new("a/b"));
    set.insert(SitePath::new("a//b"));
    set.insert(SitePath::new("c"));
    assert_eq!(set.len(), 2);
    set.remove(&SitePath::new("a/b/"));
    assert!(!set.contains(&SitePath::new("a/b")));
    assert_eq!(set.to_vec().len(), 1);
}

#[test]
fn a_table_finds_what_was_entered_last() {
    let mut table: Table<String, u8> = Table::new();
    table.insert("a".to_string(), 1);
    table.insert("b".to_string(), 2);
    table.insert("a".to_string(), 3);
    assert_eq!(table.get(&"a".to_string()), Some(&3));
    assert_eq!(table.get(&"b".to_string()), Some(&2));
    assert_eq!(table.position(&"a".to_string()), 0);
    table.remove(&"a".to_string());
    assert!(!table.contains_key(&"a".to_string()));
    assert_eq!(table.get(&"b".to_string()), Some(&2));
}
