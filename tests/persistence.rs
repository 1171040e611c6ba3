use crosser::{EntryVariant, LoadError, LoadedDoc, Puzzle, PuzzleType, SavedPuzzle, SquareContents, SquareModifier};
use std::hash::{Hash, Hasher};

fn read_back(s: &SavedPuzzle) -> LoadedDoc {
    LoadedDoc {
        variant: Some(s.variant.clone()),
        squares: Some(s.squares.iter().map(|x| Some(x.clone())).collect()),
        across_clues: Some(s.across_clues.iter().map(|(k, v)| (k.clone(), Some(v.clone()))).collect()),
        down_clues: Some(s.down_clues.iter().map(|(k, v)| (k.clone(), Some(v.clone()))).collect()),
        hash_string: Some(s.hash_string.clone()),
    }
}

fn sample() -> Puzzle {
    let mut p = Puzzle::new(PuzzleType::Mini);
    p.cycle_blocker(4, 0, false);
    p.cycle_blocker(0, 4, false);
    p.modify_sq_contents(0, 0, 'C', false);
    p.modify_sq_contents(1, 0, 'A', false);
    p.modify_sq_contents(2, 0, 'T', false);
    p.modify_sq_contents(2, 0, 'S', true);
    p.cycle_modifier(1, 0);
    p.cycle_modifier(2, 2);
    p.cycle_modifier(2, 2);
    p.set_clue_text(1, EntryVariant::Across, "Pets".to_string());
    p.set_clue_text(2, EntryVariant::Down, "Second".to_string());
    p
}

fn cells(p: &Puzzle) -> Vec<(Option<String>, Option<SquareModifier>)> {
    p.squares
        .iter()
        .map(|s| match &s.content {
            SquareContents::Blocker => (None, None),
            SquareContents::TextContent(t, m) => (Some(t.clone()), *m),
        })
        .collect()
}

fn clues(list: &[crosser::PuzzleEntry]) -> Vec<(u32, String)> {
    list.iter().map(|e| (e.label, e.clue.clone())).collect()
}

fn std_hash(s: &str) -> u64 {
    let mut h = std::collections::hash_map::DefaultHasher::new();
    s.to_string().hash(&mut h);
    h.finish()
}

#[test]
fn saved_form_fields() {
    let p = sample();
    let s = p.to_saved(false);
    assert_eq!(s.variant, "mini");
    assert_eq!(s.squares[0], "C/n");
    assert_eq!(s.squares[1], "A/s");
    assert_eq!(s.squares[2], "TS/n");
    assert_eq!(s.squares[4], "#");
    assert_eq!(s.squares[12], "/c");
    assert_eq!(s.squares[20], "#");
    assert_eq!(s.hash_string, "NULL");
    assert!(s.across_clues.contains(&("1".to_string(), "Pets".to_string())));
    assert!(s.down_clues.contains(&("2".to_string(), "Second".to_string())));
    assert_eq!(s.across_clues.len(), p.across_entries.len());
    let stripped = p.to_saved(true);
    assert_eq!(stripped.squares[0], "/n");
    assert_eq!(stripped.squares[2], "/n");
    assert_eq!(stripped.hash_string, p.get_puzzle_total_hash().to_string());
}

#[test]
fn round_trip_keeps_everything() {
    let p = sample();
    let q = Puzzle::from_doc(&read_back(&p.to_saved(false))).unwrap();
    assert_eq!(q.variant, p.variant);
    assert_eq!(cells(&q), cells(&p));
    assert_eq!(clues(&q.across_entries), clues(&p.across_entries));
    assert_eq!(clues(&q.down_entries), clues(&p.down_entries));
    assert_eq!(q.solved_hash, None);
    assert!(!q.fill_only);
    assert!(!q.is_solved());
}

#[test]
fn stripped_round_trip_is_solvable() {
    let p = sample();
    let mut q = Puzzle::from_doc(&read_back(&p.to_saved(true))).unwrap();
    assert!(q.fill_only);
    assert_eq!(q.solved_hash, Some(p.get_puzzle_total_hash()));
    for s in q.squares.iter() {
        if let SquareContents::TextContent(t, _) = &s.content {
            assert_eq!(t, "");
        }
    }
    assert_eq!(clues(&q.across_entries), clues(&p.across_entries));
    assert!(!q.is_solved());
    q.modify_sq_contents(0, 0, 'C', false);
    q.modify_sq_contents(1, 0, 'A', false);
    q.modify_sq_contents(2, 0, 'T', false);
    assert!(!q.is_solved());
    q.modify_sq_contents(2, 0, 'S', true);
    assert!(q.is_solved());
    q.cycle_blocker(3, 3, false);
    assert!(!matches!(q.at(3, 3).content, SquareContents::Blocker));
}

#[test]
fn json_round_trip() {
    let p = sample();
    let text = p.to_json(false);
    let q = Puzzle::from_json(&text).unwrap();
    assert_eq!(cells(&q), cells(&p));
    assert_eq!(clues(&q.across_entries), clues(&p.across_entries));
    assert_eq!(clues(&q.down_entries), clues(&p.down_entries));
    let r = Puzzle::from_json(&p.to_json(true)).unwrap();
    assert!(r.fill_only);
    assert_eq!(r.solved_hash, Some(p.get_puzzle_total_hash()));
}

#[test]
fn json_text_is_compact_document() {
    let p = Puzzle::new(PuzzleType::Mini);
    let text = p.to_json(false);
    assert!(text.starts_with('{'));
    assert!(text.contains("\"variant\":\"mini\""));
    assert!(text.contains("\"hash_string\":\"NULL\""));
    assert!(text.contains("\"squares\":[\"/n\""));
}

#[test]
fn json_document_layout() {
    let p = Puzzle::new(PuzzleType::Mini);
    let v: serde_json::Value = serde_json::from_str(&p.to_json(false)).unwrap();
    assert_eq!(v["variant"], serde_json::Value::String("mini".to_string()));
    assert_eq!(v["squares"].as_array().unwrap().len(), 25);
    assert_eq!(v["squares"][0], serde_json::Value::String("/n".to_string()));
    assert_eq!(v["across_clues"]["6"], serde_json::Value::String(String::new()));
    assert_eq!(v["hash_string"], serde_json::Value::String("NULL".to_string()));
}

#[test]
fn fingerprint_hashes_the_grid_text() {
    let mut p = Puzzle::new(PuzzleType::Mini);
    p.cycle_blocker(0, 0, false);
    p.modify_sq_contents(1, 0, 'H', false);
    p.modify_sq_contents(2, 0, 'I', false);
    assert_eq!(p.grid_string(), "#HI");
    assert_eq!(p.get_puzzle_total_hash(), std_hash("#HI"));
    assert_ne!(p.get_puzzle_total_hash(), std_hash(""));
    assert!(!p.is_solved());
    p.solved_hash = Some(std_hash("#HI"));
    assert!(p.is_solved());
    assert!(p.solved_against(std_hash("#HI")));
    assert!(!p.solved_against(1));
}

fn template() -> LoadedDoc {
    read_back(&Puzzle::new(PuzzleType::Mini).to_saved(false))
}

#[test]
fn template_load_is_editable_and_unsolved() {
    let q = Puzzle::from_doc(&template()).unwrap();
    assert!(!q.fill_only);
    assert_eq!(q.solved_hash, None);
    assert!(!q.is_solved());
}

#[test]
fn missing_hash_string_is_accepted() {
    let mut doc = template();
    doc.hash_string = None;
    let q = Puzzle::from_doc(&doc).unwrap();
    assert_eq!(q.solved_hash, None);
}

#[test]
fn hash_string_number_is_target() {
    let mut doc = template();
    doc.hash_string = Some("123".to_string());
    let q = Puzzle::from_doc(&doc).unwrap();
    assert_eq!(q.solved_hash, Some(123));
    assert!(q.fill_only);
}

#[test]
fn bad_hash_string_fails() {
    let mut doc = template();
    doc.hash_string = Some("abc".to_string());
    assert_eq!(Puzzle::from_doc(&doc).err(), Some(LoadError::HashString));
}

#[test]
fn unknown_variant_fails() {
    let mut doc = template();
    doc.variant = Some("huge".to_string());
    assert_eq!(Puzzle::from_doc(&doc).err(), Some(LoadError::Variant));
    doc.variant = None;
    assert_eq!(Puzzle::from_doc(&doc).err(), Some(LoadError::Variant));
}

#[test]
fn each_variant_name_loads() {
    for (name, v) in [
        ("mini", PuzzleType::Mini),
        ("weekday", PuzzleType::Weekday),
        ("weekday_asymmetric", PuzzleType::WeekdayAsymmetric),
        ("sunday", PuzzleType::Sunday),
    ] {
        let mut doc = template();
        doc.variant = Some(name.to_string());
        doc.across_clues = Some(Vec::new());
        doc.down_clues = Some(Vec::new());
        let q = Puzzle::from_doc(&doc).unwrap();
        assert_eq!(q.variant, v);
    }
}

#[test]
fn bad_squares_fail() {
    let mut doc = template();
    doc.squares.as_mut().unwrap()[3] = Some("A/x".to_string());
    assert_eq!(Puzzle::from_doc(&doc).err(), Some(LoadError::Squares));
    let mut doc = template();
    doc.squares.as_mut().unwrap()[3] = None;
    assert_eq!(Puzzle::from_doc(&doc).err(), Some(LoadError::Squares));
    let mut doc = template();
    doc.squares.as_mut().unwrap().push(Some("/n".to_string()));
    assert_eq!(Puzzle::from_doc(&doc).err(), Some(LoadError::Squares));
    let mut doc = template();
    doc.squares = None;
    assert_eq!(Puzzle::from_doc(&doc).err(), Some(LoadError::Squares));
}

#[test]
fn square_strings_decode() {
    let mut doc = template();
    {
        let sq = doc.squares.as_mut().unwrap();
        sq[0] = Some("AB/c".to_string());
        sq[1] = Some("xyz".to_string());
        sq[2] = Some("Q/s".to_string());
        sq.truncate(10);
    }
    doc.across_clues = Some(Vec::new());
    doc.down_clues = Some(Vec::new());
    let q = Puzzle::from_doc(&doc).unwrap();
    match &q.at(0, 0).content {
        SquareContents::TextContent(t, m) => {
            assert_eq!(t, "AB");
            assert_eq!(*m, Some(SquareModifier::Circle));
        }
        SquareContents::Blocker => panic!("expected letters"),
    }
    assert!(matches!(q.at(1, 0).content, SquareContents::Blocker));
    assert!(matches!(q.at(2, 0).content, SquareContents::TextContent(_, Some(SquareModifier::Shading))));
    assert!(matches!(q.at(4, 4).content, SquareContents::TextContent(_, None)));
}

#[test]
fn bad_clues_fail() {
    let mut doc = template();
    doc.across_clues.as_mut().unwrap().push(("x".to_string(), Some("c".to_string())));
    assert_eq!(Puzzle::from_doc(&doc).err(), Some(LoadError::Clues));
    let mut doc = template();
    doc.down_clues.as_mut().unwrap().push(("99".to_string(), Some("c".to_string())));
    assert_eq!(Puzzle::from_doc(&doc).err(), Some(LoadError::Clues));
    let mut doc = template();
    doc.down_clues.as_mut().unwrap().push(("6".to_string(), Some("c".to_string())));
    assert_eq!(Puzzle::from_doc(&doc).err(), Some(LoadError::Clues));
    let mut doc = template();
    doc.across_clues.as_mut().unwrap()[0].1 = None;
    assert_eq!(Puzzle::from_doc(&doc).err(), Some(LoadError::Clues));
    let mut doc = template();
    doc.across_clues = None;
    assert_eq!(Puzzle::from_doc(&doc).err(), Some(LoadError::Clues));
}

#[test]
fn later_clue_pair_wins() {
    let mut doc = template();
    doc.across_clues = Some(vec![
        ("6".to_string(), Some("first".to_string())),
        ("+6".to_string(), Some("second".to_string())),
    ]);
    let q = Puzzle::from_doc(&doc).unwrap();
    let e = q.across_entries.iter().find(|e| e.label == 6).unwrap();
    assert_eq!(e.clue, "second");
    assert_eq!(q.at(0, 1).across_clue_text.as_deref(), Some("second"));
}

#[test]
fn not_json_fails() {
    assert_eq!(Puzzle::from_json("{ not json").err(), Some(LoadError::Syntax));
    assert_eq!(Puzzle::from_json("[1, 2]").err(), Some(LoadError::Variant));
}
