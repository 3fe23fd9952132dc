use liz::liz_texts;

#[test]
fn text_len_and_del() {
    assert_eq!(liz_texts::len("héllo"), 6);
    assert_eq!(liz_texts::len(""), 0);
    assert_eq!(liz_texts::del("abcdef", 1, 3), "adef");
    assert_eq!(liz_texts::del("abc", 5, 1), "abc");
    assert_eq!(liz_texts::del("héllo", 1, 2), "hllo");
    assert_eq!(liz_texts::del("abc", 0, 99), "");
}

#[test]
fn text_trim_and_checks() {
    assert_eq!(liz_texts::trim("  a b \n"), "a b");
    assert_eq!(liz_texts::trim(" \t "), "");
    assert_eq!(liz_texts::text_trim("\u{3000}x\u{a0}"), "x");
    assert!(liz_texts::is_empty(""));
    assert!(!liz_texts::is_empty(" "));
    assert!(liz_texts::is_ascii("abc!"));
    assert!(!liz_texts::is_ascii("é"));
    assert!(liz_texts::is_whitespace(" \n"));
    assert!(liz_texts::is_punctuation("!?"));
    assert!(!liz_texts::is_punctuation("a!"));
}

#[test]
fn text_cases() {
    assert_eq!(liz_texts::tolower("AbC"), "abc");
    assert_eq!(liz_texts::toupper("aBc"), "ABC");
    assert_eq!(liz_texts::tocapital("hELLO"), "Hello");
    assert_eq!(liz_texts::tocapital(""), "");
    assert_eq!(liz_texts::tocapital("a"), "A");
    assert!(liz_texts::is_likely("A b", "ab"));
    assert!(!liz_texts::is_likely("abc", "ab"));
    assert!(liz_texts::is_equals("x", "x"));
}

#[test]
fn text_search() {
    assert!(liz_texts::contains("hello", "ll"));
    assert!(liz_texts::contains("hello", ""));
    assert!(!liz_texts::contains("hi", "hello"));
    assert_eq!(liz_texts::find("héllo", "l"), Some(3));
    assert_eq!(liz_texts::rfind("héllo", "l"), Some(4));
    assert_eq!(liz_texts::find("abc", ""), Some(0));
    assert_eq!(liz_texts::rfind("abc", ""), Some(3));
    assert_eq!(liz_texts::find("abc", "z"), None);
    assert_eq!(liz_texts::rfind("abcabc", "bc"), Some(4));
    assert!(liz_texts::starts_with("hello", "he"));
    assert!(!liz_texts::starts_with("he", "hello"));
    assert!(liz_texts::ends_with("hello", "lo"));
    assert!(liz_texts::ends_with("hello", ""));
}

#[test]
fn text_split_and_replace() {
    assert_eq!(liz_texts::split("a,b,,c", ","), vec!["a", "b", "", "c"]);
    assert_eq!(liz_texts::split("abc", ""), vec!["", "a", "b", "c", ""]);
    assert_eq!(liz_texts::split("", ","), vec![""]);
    assert_eq!(liz_texts::split("aXbX", "X"), vec!["a", "b", ""]);
    assert_eq!(liz_texts::split("a--b---c", "--"), vec!["a", "b", "-c"]);
    assert_eq!(liz_texts::split_spaces("  a  bb c "), vec!["a", "bb", "c"]);
    assert!(liz_texts::split_spaces(" \t ").is_empty());
    assert_eq!(liz_texts::replace("a/b/c", "/", "\\"), "a\\b\\c");
    assert_eq!(liz_texts::replace("ab", "", "x"), "xaxbx");
    let pieces = liz_texts::split("one::two::three", "::");
    assert_eq!(pieces.join("::"), "one::two::three");
    let words = liz_texts::split_spaces(" ab\tc  d ");
    assert_eq!(words.concat(), "abcd");
}

#[test]
fn text_file_founds_test() {
    let fields = liz_texts::text_file_founds("(/p/f.txt)[2,5,17,3]the line");
    assert_eq!(fields, vec!["/p/f.txt", "2", "5", "17", "3", "the line"]);
    assert_eq!(liz_texts::text_file_founds(""), vec![""]);
}

#[test]
fn text_file_find_test() {
    let lines = vec!["hello world\n".to_string(), "say hello\n".to_string()];
    let found = liz_texts::text_file_find_any(
        "f.txt",
        lines.clone(),
        vec!["hello".to_string(), "world".to_string()],
    )
    .unwrap();
    assert_eq!(
        found,
        vec![
            "(f.txt)[1,0,0,5]hello world",
            "(f.txt)[1,6,6,5]hello world",
            "(f.txt)[2,4,16,5]say hello",
        ]
    );
    assert!(liz_texts::text_file_find("f", vec!["abc\n".to_string()], "zz".to_string()).is_none());
    let found = liz_texts::text_file_find("f", lines, "say".to_string()).unwrap();
    assert_eq!(found, vec!["(f)[2,0,12,3]say hello"]);
    let fields = liz_texts::text_file_founds(&found[0]);
    assert_eq!(fields, vec!["f", "2", "0", "12", "3", "say hello"]);
}

#[test]
fn ask_bool_test() {
    assert!(liz_texts::ask_bool("Yes"));
    assert!(liz_texts::ask_bool("T"));
    assert!(liz_texts::ask_bool("true"));
    assert!(!liz_texts::ask_bool("no"));
    assert!(!liz_texts::ask_bool("yes\n"));
}

#[test]
fn text_laws_on_concrete_values() {
    for text in ["  a b  ", "", " \t", "x", "\n y \n"] {
        let once = liz_texts::trim(text);
        assert_eq!(liz_texts::trim(&once), once);
    }
    for (text, pattern) in [("a,b,,c", ","), ("abab", "ab"), ("", "x"), ("xyz", "q")] {
        assert_eq!(liz_texts::replace(text, pattern, pattern), text);
        assert_eq!(
            liz_texts::contains(text, pattern),
            liz_texts::find(text, pattern).is_some()
        );
        assert_eq!(
            liz_texts::find(text, pattern).is_some(),
            liz_texts::rfind(text, pattern).is_some()
        );
    }
    let entry = liz_texts::text_file_find("a/b.txt", vec!["  key = 10\r\n".to_string()], "10".to_string())
        .unwrap();
    assert_eq!(entry, vec!["(a/b.txt)[1,8,8,2]key = 10"]);
    assert_eq!(
        liz_texts::text_file_founds(&entry[0]),
        vec!["a/b.txt", "1", "8", "8", "2", "key = 10"]
    );
}

#[test]
fn likely_is_reflexive_on_concrete_values() {
    for text in ["", "a B", " Hello World ", "ÀÉ"] {
        assert!(liz_texts::is_likely(text, text));
    }
}

#[test]
fn json_text_test() {
    assert_eq!(liz_texts::json_text("a\"b\\c\n"), "\"a\\\"b\\\\c\\n\"");
    assert_eq!(liz_texts::json_text(""), "\"\"");
    assert_eq!(liz_texts::json_text("tab\there\r"), "\"tab\\there\\r\"");
}

#[test]
fn text_split_count_is_matches_plus_one() {
    for (text, pattern) in [("a,b,,c", ","), ("", ","), ("a--b---c", "--"), ("abc", ""), ("xx", "x")] {
        let pieces = liz_texts::split(text, pattern);
        assert_eq!(pieces.len(), text.matches(pattern).count() + 1);
        assert_eq!(pieces.join(pattern), text);
    }
}

#[test]
fn text_file_founds_untrimmed_line() {
    let fields = liz_texts::text_file_founds("(/p/f.txt)[12,0,340,7]  a line, with ] marks  ");
    assert_eq!(fields, vec!["/p/f.txt", "12", "0", "340", "7", "  a line, with ] marks  "]);
}
