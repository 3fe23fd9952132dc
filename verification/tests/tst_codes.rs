use liz::liz_codes;

#[test]
fn liz_suit_path_test() {
    assert_eq!(
        liz_codes::liz_suit_path_on("dir\\sub\\run", '/', "/w", "/l"),
        "dir/sub/run.liz"
    );
    assert_eq!(
        liz_codes::liz_suit_path_on("$pwd/x.LUA", '/', "/home/u", "/opt/liz"),
        "/home/u/x.LUA"
    );
    assert_eq!(
        liz_codes::liz_suit_path_on("$liz/a/b", '\\', "w", "C:\\liz"),
        "C:\\liz\\a\\b.liz"
    );
    let suited = liz_codes::liz_suit_path("run.liz", "/w", "/l");
    assert_eq!(suited, "run.liz");
}

#[test]
fn get_lizs_path_pos_test() {
    assert_eq!(liz_codes::get_lizs_path_pos(".lizs/emuvi/x.liz"), Some(0));
    assert_eq!(liz_codes::get_lizs_path_pos("/home/u/.lizs/a/b.liz"), Some(7));
    assert_eq!(liz_codes::get_lizs_path_pos("C:\\w\\.lizs\\x"), Some(4));
    assert_eq!(liz_codes::get_lizs_path_pos("plain/path"), None);
}

#[test]
fn git_has_changes_test() {
    assert!(!liz_codes::git_has_changes(
        "On branch main\nnothing to commit, working tree clean\n"
    ));
    assert!(liz_codes::git_has_changes("Changes not staged for commit"));
}

#[test]
fn forms_makers_test() {
    assert!(liz_codes::edit().desk.is_empty());
    assert_eq!(liz_codes::code("x".to_string()).desk, vec!["x".to_string()]);
    let terms = vec!["a".to_string(), "b".to_string()];
    assert_eq!(liz_codes::desk(terms.clone()).desk, terms);
}

#[test]
fn eval_source_test() {
    assert_eq!(
        liz_codes::eval_source("#!/usr/bin/env liz\n  print(1)  \n"),
        "print(1)"
    );
    assert_eq!(liz_codes::eval_source("  x = 1 "), "x = 1");
    assert_eq!(liz_codes::eval_source("#!only"), "#!only");
    assert_eq!(liz_codes::eval_source(""), "");
}

#[test]
fn git_root_step_test() {
    match liz_codes::git_root_step_on("/home/u/proj", true, "/w", true, '/').unwrap() {
        liz_codes::GitStep::Found(root) => assert_eq!(root, "/home/u/proj"),
        liz_codes::GitStep::Climb(_) => panic!("the root was found"),
    }
    match liz_codes::git_root_step_on("/home/u/proj", false, "/w", true, '/').unwrap() {
        liz_codes::GitStep::Climb(parent) => assert_eq!(parent, "/home/u"),
        liz_codes::GitStep::Found(_) => panic!("the search climbs"),
    }
    match liz_codes::git_root_step_on("C:", false, "C:\\w", true, '\\').unwrap() {
        liz_codes::GitStep::Found(root) => assert_eq!(root, ""),
        liz_codes::GitStep::Climb(_) => panic!("nothing is left to climb to"),
    }
}
