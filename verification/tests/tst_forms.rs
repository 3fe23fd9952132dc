use liz::liz_forms;
use liz::liz_parse;

#[test]
fn kit_find_test() {
    let forms = liz_forms::kit_from(&["a", "b", "a"]);
    assert_eq!(liz_forms::kit_find_all(&forms, "a"), vec![0, 2]);
    assert!(liz_forms::kit_find_all(&forms, "z").is_empty());
    let forms = liz_forms::kit_from(&["A b", "ab", "x"]);
    assert_eq!(liz_forms::kit_find_all_like(&forms, "ab"), vec![0, 1]);
    assert_eq!(liz_forms::kit_find_all_ask(&forms, |f| f.len() > 1), vec![0, 1]);
}

#[test]
fn kit_some_test() {
    let forms = liz_forms::kit_from(&["  ", "a", " "]);
    assert_eq!(liz_forms::kit_first_some(&forms), Some(1));
    assert_eq!(liz_forms::kit_last_some(&forms), Some(1));
    assert_eq!(liz_forms::kit_prior_some(&forms, 3), Some(1));
    assert_eq!(liz_forms::kit_prior_some(&forms, 1), None);
    assert_eq!(liz_forms::kit_next_some(&forms, 0), Some(1));
    assert_eq!(liz_forms::kit_next_some(&forms, 1), None);
    let blank = liz_forms::kit_from(&[" "]);
    assert_eq!(liz_forms::kit_first_some(&blank), None);
    assert_eq!(liz_forms::kit_last_some(&liz_forms::kit_new()), None);
}

#[test]
fn kit_change_test() {
    let mut forms = liz_forms::kit_from(&["a", "b", "a"]);
    liz_forms::kit_change_all(&mut forms, "a", "z");
    assert_eq!(forms, liz_forms::kit_from(&["z", "b", "z"]));
    let mut forms = liz_forms::kit_from(&["A b", "c"]);
    liz_forms::kit_change_all_like(&mut forms, "ab", "X");
    assert_eq!(forms, liz_forms::kit_from(&["X", "c"]));
    let mut forms = liz_forms::kit_from(&["a", "b"]);
    liz_forms::kit_change_all_ask(&mut forms, "Q", |f| f == "b");
    assert_eq!(forms, liz_forms::kit_from(&["a", "Q"]));
}

#[test]
fn kit_edit_test() {
    let mut forms = liz_forms::kit_from(&["a", "b", "c", "d"]);
    assert_eq!(liz_forms::kit_len(&forms), 4);
    assert_eq!(liz_forms::kit_get(&forms, 2), "c");
    liz_forms::kit_set(&mut forms, 0, "A".to_string());
    liz_forms::kit_add(&mut forms, 1, "x".to_string());
    assert_eq!(forms, liz_forms::kit_from(&["A", "x", "b", "c", "d"]));
    let removed = liz_forms::kit_del_range(&mut forms, 1, 3);
    assert_eq!(removed, liz_forms::kit_from(&["x", "b"]));
    assert_eq!(forms, liz_forms::kit_from(&["A", "c", "d"]));
    liz_forms::kit_add_range(&mut forms, 1, liz_forms::kit_from(&["1", "2"]));
    assert_eq!(forms, liz_forms::kit_from(&["A", "1", "2", "c", "d"]));
    assert_eq!(liz_forms::kit_del(&mut forms, 0), "A");
    liz_forms::kit_put(&mut forms, "e".to_string());
    assert_eq!(liz_forms::kit_pop(&mut forms), Some("e".to_string()));
    assert_eq!(forms, liz_forms::kit_from(&["1", "2", "c", "d"]));
}

#[test]
fn kit_build_and_print_test() {
    let forms = liz_forms::kit_from(&["ab", " ", "cd"]);
    assert_eq!(liz_forms::kit_build(&forms), "ab cd");
    assert_eq!(liz_forms::kit_print_all(&liz_forms::kit_from(&["a", "b"])), "['a','b']");
    assert_eq!(liz_forms::kit_print_all(&liz_forms::kit_new()), "[]");
}

#[test]
fn parse_keeps_built_text() {
    let mut forms = liz_forms::kit_from(&["ab  cd!? 'x y'"]);
    let before = liz_forms::kit_build(&forms);
    liz_parse::rig_parse_all(
        &mut forms,
        vec![
            liz_parse::block_single_quotes(),
            liz_parse::block_white_space(),
            liz_parse::block_punctuation(),
        ],
    )
    .expect("Could not parse.");
    assert_eq!(liz_forms::kit_build(&forms), before);
    assert!(forms.len() > 1);
}

#[test]
fn kit_range_laws_on_concrete_values() {
    let initial = liz_forms::kit_from(&["a", "b", "c"]);
    let mut forms = initial.clone();
    let range = liz_forms::kit_from(&["x", "y"]);
    liz_forms::kit_add_range(&mut forms, 1, range.clone());
    assert_eq!(forms, liz_forms::kit_from(&["a", "x", "y", "b", "c"]));
    let taken = liz_forms::kit_del_range(&mut forms, 1, 3);
    assert_eq!(taken, range);
    assert_eq!(forms, initial);
    let taken = liz_forms::kit_del_range(&mut forms, 0, 2);
    liz_forms::kit_add_range(&mut forms, 0, taken);
    assert_eq!(forms, initial);
}

#[test]
fn kit_read_after_write_on_concrete_values() {
    let mut forms = liz_forms::kit_from(&["a", "b", "c"]);
    liz_forms::kit_set(&mut forms, 1, "B".to_string());
    assert_eq!(liz_forms::kit_get(&forms, 1), "B");
    assert_eq!(liz_forms::kit_get(&forms, 0), "a");
    let before = forms.clone();
    liz_forms::kit_put(&mut forms, "z".to_string());
    assert_eq!(liz_forms::kit_pop(&mut forms), Some("z".to_string()));
    assert_eq!(forms, before);
    liz_forms::kit_add(&mut forms, 2, "q".to_string());
    assert_eq!(liz_forms::kit_del(&mut forms, 2), "q");
    assert_eq!(forms, before);
}
