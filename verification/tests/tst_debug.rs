use liz::liz_debug;
use liz::liz_debug::MessageErr;

#[test]
fn debug_make_test() {
    assert_eq!(
        liz_debug::debug_make("ERRO", "src/a.rs", 12, "f", String::new(), "boom"),
        "[ERRO] boom on (f) in src/a.rs[12]"
    );
    assert_eq!(
        liz_debug::debug_make("ERRO", "src/a.rs", 12, "f", "x = {1}".to_string(), "boom"),
        "[ERRO] boom as {x = {1}} on (f) in src/a.rs[12]"
    );
    assert_eq!(
        liz_debug::debug_info("a.rs", 0, "g", String::new(), "hi"),
        "[INFO] hi on (g) in a.rs[0]"
    );
    assert_eq!(
        liz_debug::debug_kind("WARN", "a.rs", 7, "g", String::new(), "hm"),
        "[WARN] hm on (g) in a.rs[7]"
    );
}

#[test]
fn debug_errors_test() {
    let err = liz_debug::debug_erro("a.rs", 3, "f", String::new(), "bad");
    assert_eq!(err.as_str(), "[ERRO] bad on (f) in a.rs[3]");
    let err = liz_debug::debug_jolt("WARN", "a.rs", 3, "f", String::new(), "odd");
    assert_eq!(err.as_str(), "[WARN] odd on (f) in a.rs[3]");
    let inner = MessageErr::new("[ERRO] boom on (g) in b.rs[3]");
    assert_eq!(
        liz_debug::debug_bleb("a.rs", 1, "f", String::new(), &inner),
        "[ERRO] [BLEB] from (g) in b.rs[3] on (f) in a.rs[1]"
    );
    let plain = MessageErr::new("plain");
    assert_eq!(
        liz_debug::debug_bleb("a.rs", 1, "f", String::new(), &plain),
        "[ERRO] [BLEB] from  on (f) in a.rs[1]"
    );
    assert_eq!(MessageErr::with("Could not", "no file").as_str(), "Could not, no file");
    assert_eq!(MessageErr::from("e".to_string()).as_str(), "e");
    assert_eq!(liz_debug::wrong("w".to_string()).as_str(), "w");
    assert_eq!(liz_debug::throw("t".to_string()).as_str(), "t");
}

#[test]
fn debug_points_test() {
    assert_eq!(liz_debug::debug_call("a.rs", 1, "f", String::new(), 0), None);
    assert_eq!(
        liz_debug::debug_call("a.rs", 1, "f", String::new(), 1),
        Some("[DBUG] [CALL] on (f) in a.rs[1]".to_string())
    );
    assert_eq!(liz_debug::debug_reav("a.rs", 1, "f", String::new(), 1), None);
    assert!(liz_debug::debug_seal("a.rs", 1, "f", String::new(), 3).is_some());
    assert!(liz_debug::debug_step("a.rs", 1, "f", String::new(), 3).is_some());
    assert_eq!(liz_debug::debug_tell("a.rs", 1, "f", String::new(), 3), None);
    assert_eq!(
        liz_debug::debug_tell("a.rs", 1, "f", "v = {2}".to_string(), 4),
        Some("[DBUG] [TELL] as {v = {2}} on (f) in a.rs[1]".to_string())
    );
}
