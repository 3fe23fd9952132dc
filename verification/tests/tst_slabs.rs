use liz::liz_slabs;

#[test]
fn slabs_parse_and_build() {
    let slabs = liz_slabs::parse("ab  cd e", "x");
    assert_eq!(slabs.len(), 5);
    assert_eq!(slabs.get(0), "ab");
    assert_eq!(slabs.get(1), "  ");
    assert_eq!(slabs.get(2), "cd");
    assert_eq!(slabs.get(3), " ");
    assert_eq!(slabs.get(4), "e");
    assert_eq!(slabs.build(), "ab  cd e");
    let slabs = liz_slabs::parse("  lead", "y");
    assert_eq!(slabs.len(), 2);
    assert_eq!(slabs.build(), "  lead");
    assert_eq!(liz_slabs::parse("", "z").len(), 0);
}

#[test]
fn slabs_put_skips_empty() {
    let mut slabs = liz_slabs::Slabs::new();
    assert_eq!(slabs.len(), 0);
    slabs.put("");
    assert_eq!(slabs.len(), 0);
    slabs.put("x");
    slabs.put("yz");
    assert_eq!(slabs.len(), 2);
    assert_eq!(slabs.build(), "xyz");
}

#[test]
fn slabs_runs_take_turns() {
    let slabs = liz_slabs::parse("  ab cd   e  ", "w");
    let pieces: Vec<String> = (0..slabs.len()).map(|i| slabs.get(i)).collect();
    assert_eq!(pieces, vec!["  ", "ab", " ", "cd", "   ", "e", "  "]);
    for piece in &pieces {
        let spaces = piece.starts_with(' ');
        assert!(piece.chars().all(|c| (c == ' ') == spaces));
    }
    for i in 1..pieces.len() {
        assert_ne!(pieces[i - 1].starts_with(' '), pieces[i].starts_with(' '));
    }
}
