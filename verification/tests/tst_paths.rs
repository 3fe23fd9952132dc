use liz::liz_paths;

#[test]
fn path_parts_test() {
    let tester = liz_paths::path_parts("/home/pointel/test");
    assert_eq!(tester.len(), 4);
    assert_eq!(tester[0], "/");
    assert_eq!(tester[1], "home");
    assert_eq!(tester[2], "pointel");
    assert_eq!(tester[3], "test");
    let tester = liz_paths::path_parts("pointel/test");
    assert_eq!(tester.len(), 2);
    assert_eq!(tester[0], "pointel");
    assert_eq!(tester[1], "test");
    let tester = liz_paths::path_parts("./pointel/test");
    assert_eq!(tester.len(), 3);
    assert_eq!(tester[0], ".");
    assert_eq!(tester[1], "pointel");
    assert_eq!(tester[2], "test");
    let tester = liz_paths::path_parts("C:\\pointel\\test");
    assert_eq!(tester.len(), 3);
    assert_eq!(tester[0], "C:");
    assert_eq!(tester[1], "pointel");
    assert_eq!(tester[2], "test");
}

#[test]
fn path_parts_join_test() {
    let tester = liz_paths::path_parts("/home/pointel/test");
    let expect = "/home/pointel/test";
    let result = liz_paths::path_parts_join(tester.as_slice());
    assert_eq!(result, expect);
    let tester = liz_paths::path_parts("C:\\pointel\\test");
    let expect = "C:\\pointel\\test";
    let result = liz_paths::path_parts_join(tester.as_slice());
    assert_eq!(result, expect);
    let tester = liz_paths::path_parts("pointel/test");
    let expect = format!("pointel{}test", liz_paths::os_sep());
    let result = liz_paths::path_parts_join(tester.as_slice());
    assert_eq!(result, expect);
    let tester = liz_paths::path_parts("./pointel/test");
    let expect = format!(".{}pointel{}test", liz_paths::os_sep(), liz_paths::os_sep());
    let result = liz_paths::path_parts_join(tester.as_slice());
    assert_eq!(result, expect);
    let tester = liz_paths::path_parts("../../pointel/test");
    let expect = format!(
        "..{}..{}pointel{}test",
        liz_paths::os_sep(),
        liz_paths::os_sep(),
        liz_paths::os_sep()
    );
    let result = liz_paths::path_parts_join(tester.as_slice());
    assert_eq!(result, expect);
}

#[test]
fn path_sep_and_parts_edges() {
    assert_eq!(liz_paths::path_sep("a\\b/c"), "\\");
    assert_eq!(liz_paths::path_sep("a/b"), "/");
    assert_eq!(liz_paths::path_parts(""), vec!["/"]);
    assert_eq!(liz_paths::path_parts("/"), vec!["/", ""]);
    assert_eq!(liz_paths::path_parts("a//b"), vec!["a", "", "b"]);
    assert_eq!(liz_paths::path_parts_join(&[]), "");
    assert_eq!(liz_paths::path_parts_join(&["/"]), "/");
    assert_eq!(liz_paths::path_parts_join(&["D:", "x"]), "D:\\x");
}

#[test]
fn path_parts_join_roundtrip_on_concrete_paths() {
    for path in ["/usr/local/bin", "/", "//a", "/a//b", "C:\\x\\y.txt"] {
        let parts = liz_paths::path_parts(path);
        assert_eq!(liz_paths::path_parts_join(parts.as_slice()), path);
    }
    let parts = liz_paths::path_parts("rel/dir/file");
    assert_eq!(liz_paths::path_parts_join_on(parts.as_slice(), '/'), "rel/dir/file");
    let parts = liz_paths::path_parts("rel\\dir");
    assert_eq!(liz_paths::path_parts_join_on(parts.as_slice(), '\\'), "rel\\dir");
    let parts = liz_paths::path_parts("abc");
    assert_eq!(liz_paths::path_parts_join_on(parts.as_slice(), '\\'), "abc");
    let parts = liz_paths::path_parts("/a\\b");
    assert_eq!(liz_paths::path_parts_join_on(parts.as_slice(), '\\'), "/a\\b");
    let parts = liz_paths::path_parts("\\a");
    assert_eq!(liz_paths::path_parts_join_on(parts.as_slice(), '\\'), "\\\\a");
}

#[test]
fn path_name_stem_ext_test() {
    assert_eq!(liz_paths::path_name("/home/u/notes.tar.gz"), "notes.tar.gz");
    assert_eq!(liz_paths::path_stem("/home/u/notes.tar.gz"), "notes.tar");
    assert_eq!(liz_paths::path_ext("/home/u/notes.tar.gz"), ".gz");
    assert_eq!(liz_paths::path_name("C:\\docs\\a.TXT"), "a.TXT");
    assert_eq!(liz_paths::path_stem("/home/u/README"), "");
    assert_eq!(liz_paths::path_ext("/home/u/README"), "");
    assert_eq!(liz_paths::path_stem(".profile"), "");
    assert_eq!(liz_paths::path_ext(".profile"), ".profile");
    assert_eq!(liz_paths::path_name("/home/u/"), "");
}

#[test]
fn path_ext_is_test() {
    assert!(liz_paths::path_ext_is("/x/a.TXT", ".txt"));
    assert!(!liz_paths::path_ext_is("/x/a.txt", ".md"));
    assert!(liz_paths::path_ext_is("/x/noext", ""));
    assert!(liz_paths::path_ext_is_on(
        "/x/a.Rs",
        vec![".md".to_string(), ".RS".to_string()]
    ));
    assert!(!liz_paths::path_ext_is_on("/x/a.rs", vec![".md".to_string()]));
    assert!(!liz_paths::path_ext_is_on("/x/a.rs", vec![]));
}

#[test]
fn is_absolute_test() {
    assert!(liz_paths::is_absolute("/home"));
    assert!(!liz_paths::is_absolute("home"));
    assert!(!liz_paths::is_absolute(""));
    assert!(liz_paths::is_relative("./a"));
    assert!(!liz_paths::is_relative("/a"));
}

#[test]
fn path_absolute_on_fixed_directory() {
    let wd = "/home/pointel";
    assert_eq!(liz_paths::path_absolute("test", wd).unwrap(), "/home/pointel/test");
    assert_eq!(liz_paths::path_absolute("./test", wd).unwrap(), "/home/pointel/test");
    assert_eq!(liz_paths::path_absolute("../x/./y", wd).unwrap(), "/home/x/y");
    assert_eq!(liz_paths::path_absolute("/etc/hosts", wd).unwrap(), "/etc/hosts");
    assert_eq!(liz_paths::path_absolute("../../../x", wd).unwrap(), "x");
    let err = liz_paths::path_absolute("../../../../x", wd).unwrap_err();
    assert_eq!(err.as_str(), "The base path went empty");
    assert_eq!(
        liz_paths::path_absolute_on("a", "C:\\w", false, '\\').unwrap(),
        "C:\\w\\a"
    );
}

#[test]
fn path_relative_test() {
    let wd = "/home/pointel";
    assert_eq!(
        liz_paths::path_relative("/home/pointel/docs/a.txt", "/home/pointel", wd).unwrap(),
        "./docs/a.txt"
    );
    assert_eq!(
        liz_paths::path_relative("/home/pointel/docs", "docs", wd).unwrap(),
        ""
    );
    assert_eq!(
        liz_paths::path_relative("/home/pointelx", "/home/pointel", wd).unwrap(),
        "x"
    );
    assert_eq!(liz_paths::path_relative("docs", "/x", wd).unwrap(), "docs");
    let err = liz_paths::path_relative("/etc/x", "/home/pointel", wd).unwrap_err();
    assert_eq!(err.as_str(), "The path must starts with the base");
}

#[test]
fn path_parent_test() {
    let wd = "/home/pointel";
    assert_eq!(liz_paths::path_parent("/home/u/docs", wd).unwrap(), "/home/u");
    assert_eq!(liz_paths::path_parent("docs", wd).unwrap(), "/home/pointel");
    assert_eq!(
        liz_paths::path_parent_find("/home/u/docs/a", "u", wd).unwrap(),
        "/home/u"
    );
    assert_eq!(
        liz_paths::path_parent_find("/a/b/a/c", "a", wd).unwrap(),
        "/a/b/a"
    );
    let err = liz_paths::path_parent_find("/home/u/docs/a", "zzz", wd).unwrap_err();
    assert_eq!(err.as_str(), "The path parts went empty");
}

#[test]
fn path_join_test() {
    let wd = "/home/pointel";
    let joined = liz_paths::path_join("/home/u", "docs/a.txt", wd).unwrap();
    assert_eq!(joined.unwrap(), "/home/u/docs/a.txt");
    let joined = liz_paths::path_join("/home/u", "../v/./w", wd).unwrap();
    assert_eq!(joined.unwrap(), "/home/v/w");
    let joined = liz_paths::path_join("/home/u", "/abs", wd).unwrap();
    assert_eq!(joined.unwrap_err().as_str(), "The child must be relative");
    let joined = liz_paths::path_join("a", "../../b", wd).unwrap();
    assert_eq!(joined.unwrap(), "/home/b");
    let joined = liz_paths::path_join("/", "../..", wd).unwrap();
    assert_eq!(joined.unwrap(), "");
    let joined = liz_paths::path_join("/", "../../..", wd).unwrap();
    assert_eq!(joined.unwrap_err().as_str(), "The path parts went empty");
    assert!(liz_paths::path_join("a/../..", "../../../..", wd).is_none());
    let joined = liz_paths::path_join_if_relative("/home/u", "/etc", wd).unwrap();
    assert_eq!(joined.unwrap(), "/etc");
    let joined = liz_paths::path_join_if_relative("/home/u", "etc", wd).unwrap();
    assert_eq!(joined.unwrap(), "/home/u/etc");
}

#[test]
fn path_absolute_test() {
    let wd = "/home/pointel";
    let tester = "test";
    let expect = format!("{}{}test", wd, liz_paths::os_sep());
    let result = liz_paths::path_absolute(tester, wd).unwrap();
    assert_eq!(result, expect);
    let tester = "./test";
    let expect = format!("{}{}test", wd, liz_paths::os_sep());
    let result = liz_paths::path_absolute(tester, wd).unwrap();
    assert_eq!(result, expect);
}

#[test]
fn names_with_exts_test() {
    let names = vec!["a.RS".to_string(), "b.txt".to_string(), "c.rs".to_string(), "d".to_string(), "e.Md".to_string()];
    let exts = vec![".rs".to_string(), ".MD".to_string()];
    assert_eq!(liz_paths::names_with_exts(names.clone(), exts), vec!["a.RS", "c.rs", "e.Md"]);
    assert!(liz_paths::names_with_exts(names, Vec::new()).is_empty());
}

#[test]
fn join_if_relative_is_join_or_path() {
    let wd = "/home/pointel";
    let joined = liz_paths::path_join_if_relative_on("/home/u", "docs/../etc", wd, true, false, '/').unwrap();
    let plain = liz_paths::path_join_on("/home/u", "docs/../etc", wd, true, false, '/').unwrap();
    assert_eq!(joined, plain);
    assert_eq!(joined, "/home/u/etc");
    let kept = liz_paths::path_join_if_relative_on("/home/u", "/etc/x", wd, true, true, '/').unwrap();
    assert_eq!(kept, "/etc/x");
}
