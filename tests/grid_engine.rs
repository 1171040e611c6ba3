use crosser::{match_puzzle_dim, EntryVariant, Puzzle, PuzzleType, SquareContents, SquareModifier};

fn is_blocker(p: &Puzzle, x: u32, y: u32) -> bool {
    matches!(p.at(x, y).content, SquareContents::Blocker)
}

fn letters_at(p: &Puzzle, x: u32, y: u32) -> String {
    match &p.at(x, y).content {
        SquareContents::Blocker => "#".to_string(),
        SquareContents::TextContent(s, _) => s.clone(),
    }
}

fn modifier_at(p: &Puzzle, x: u32, y: u32) -> Option<SquareModifier> {
    match &p.at(x, y).content {
        SquareContents::Blocker => None,
        SquareContents::TextContent(_, m) => *m,
    }
}

#[test]
fn dimensions_per_variant() {
    let cases = [
        (PuzzleType::Mini, 5usize),
        (PuzzleType::Weekday, 15),
        (PuzzleType::WeekdayAsymmetric, 15),
        (PuzzleType::Sunday, 21),
    ];
    for (v, d) in cases {
        assert_eq!(match_puzzle_dim(&v), d);
        let p = Puzzle::new(v);
        assert_eq!(p.dim(), d);
        assert_eq!(p.squares.len(), d * d);
        assert_eq!(p.title, "New Puzzle");
        assert!(!p.fill_only);
        assert_eq!(p.solved_hash, None);
        for (i, sq) in p.squares.iter().enumerate() {
            assert_eq!(sq.x as usize, i % d);
            assert_eq!(sq.y as usize, i / d);
        }
    }
}

#[test]
fn empty_mini_has_one_entry_per_row_and_column() {
    let p = Puzzle::new(PuzzleType::Mini);
    assert_eq!(p.across_entries.len(), 5);
    assert_eq!(p.down_entries.len(), 5);
    assert_eq!(p.at(0, 0).label, Some(1));
    for x in 0..5u32 {
        assert_eq!(p.at(x, 0).label, Some(x + 1));
    }
    for y in 1..5u32 {
        assert_eq!(p.at(0, y).label, Some(y + 5));
    }
    assert_eq!(p.at(2, 2).label, None);
    let last = p.squares.iter().filter_map(|s| s.label).max();
    assert_eq!(last, Some(9));
    let across_labels: Vec<u32> = p.across_entries.iter().map(|e| e.label).collect();
    assert_eq!(across_labels, vec![1, 6, 7, 8, 9]);
    let down_labels: Vec<u32> = p.down_entries.iter().map(|e| e.label).collect();
    assert_eq!(down_labels, vec![1, 2, 3, 4, 5]);
    assert_eq!(p.across_entries[1].member_indices, vec![5, 6, 7, 8, 9]);
    assert_eq!(p.down_entries[2].member_indices, vec![2, 7, 12, 17, 22]);
    for e in p.across_entries.iter().chain(p.down_entries.iter()) {
        assert_eq!(e.clue, "");
    }
}

#[test]
fn blocking_an_isolated_cell_removes_its_entries() {
    let mut p = Puzzle::new(PuzzleType::Mini);
    p.cycle_blocker(1, 0, false);
    p.cycle_blocker(0, 1, false);
    let corner_label = p.at(0, 0).label.unwrap();
    assert!(p.across_entries.iter().any(|e| e.label == corner_label && e.member_indices == vec![0]));
    assert!(p.down_entries.iter().any(|e| e.label == corner_label && e.member_indices == vec![0]));
    let across_before = p.across_entries.len();
    let down_before = p.down_entries.len();
    p.cycle_blocker(0, 0, false);
    assert!(is_blocker(&p, 0, 0));
    assert_eq!(p.at(0, 0).label, None);
    assert_eq!(p.at(0, 0).across_entry, None);
    assert_eq!(p.at(0, 0).down_entry, None);
    assert_eq!(p.across_entries.len(), across_before - 1);
    assert_eq!(p.down_entries.len(), down_before - 1);
    assert!(p.across_entries.iter().all(|e| !e.member_indices.contains(&0)));
    assert!(p.down_entries.iter().all(|e| !e.member_indices.contains(&0)));
}

#[test]
fn symmetric_toggle_on_weekday() {
    let mut p = Puzzle::new(PuzzleType::Weekday);
    p.cycle_blocker(0, 0, false);
    assert!(is_blocker(&p, 0, 0));
    assert!(is_blocker(&p, 14, 14));
    assert_eq!(p.squares.iter().filter(|s| matches!(s.content, SquareContents::Blocker)).count(), 2);
    p.cycle_blocker(3, 1, false);
    assert!(is_blocker(&p, 3, 1));
    assert!(is_blocker(&p, 11, 13));
    p.cycle_blocker(0, 0, false);
    assert!(!is_blocker(&p, 0, 0));
    assert!(!is_blocker(&p, 14, 14));
}

#[test]
fn centre_cell_toggles_once() {
    let mut p = Puzzle::new(PuzzleType::Sunday);
    p.cycle_blocker(10, 10, false);
    assert!(is_blocker(&p, 10, 10));
    assert_eq!(p.squares.iter().filter(|s| matches!(s.content, SquareContents::Blocker)).count(), 1);
    let mut w = Puzzle::new(PuzzleType::Weekday);
    w.cycle_blocker(7, 7, false);
    assert!(is_blocker(&w, 7, 7));
}

#[test]
fn mini_and_asymmetric_toggle_only_the_target() {
    let mut p = Puzzle::new(PuzzleType::Mini);
    p.cycle_blocker(0, 0, false);
    assert!(is_blocker(&p, 0, 0));
    assert!(!is_blocker(&p, 4, 4));
    let mut a = Puzzle::new(PuzzleType::WeekdayAsymmetric);
    a.cycle_blocker(0, 0, false);
    assert!(is_blocker(&a, 0, 0));
    assert!(!is_blocker(&a, 14, 14));
    let mut w = Puzzle::new(PuzzleType::Weekday);
    w.cycle_blocker(0, 0, true);
    assert!(is_blocker(&w, 0, 0));
    assert!(!is_blocker(&w, 14, 14));
}

#[test]
fn toggling_back_clears_to_empty_cell() {
    let mut p = Puzzle::new(PuzzleType::Mini);
    p.modify_sq_contents(2, 2, 'Q', false);
    p.cycle_modifier(2, 2);
    p.cycle_blocker(2, 2, false);
    p.cycle_blocker(2, 2, false);
    assert_eq!(letters_at(&p, 2, 2), "");
    assert_eq!(modifier_at(&p, 2, 2), None);
}

fn scramble(p: &mut Puzzle) {
    let d = p.dim() as u32;
    let cells = [(3u32, 0u32), (0, 4), (6, 6), (2, 9), (12, 5), (8, 1), (4, 4)];
    for (x, y) in cells {
        p.cycle_blocker(x % d, y % d, false);
    }
}

#[test]
fn labels_increase_in_scan_order() {
    let mut p = Puzzle::new(PuzzleType::Weekday);
    scramble(&mut p);
    let labels: Vec<u32> = p.squares.iter().filter_map(|s| s.label).collect();
    for w in labels.windows(2) {
        assert!(w[0] < w[1]);
    }
    assert_eq!(labels.first(), Some(&1));
    assert_eq!(*labels.last().unwrap() as usize, labels.len());
}

#[test]
fn entry_lists_are_sorted() {
    let mut p = Puzzle::new(PuzzleType::Sunday);
    scramble(&mut p);
    for list in [&p.across_entries, &p.down_entries] {
        for w in list.windows(2) {
            assert!(w[0].label < w[1].label);
        }
    }
}

#[test]
fn rebuilding_twice_changes_nothing() {
    let mut p = Puzzle::new(PuzzleType::Weekday);
    scramble(&mut p);
    p.set_clue_text(1, EntryVariant::Across, "first".to_string());
    let snapshot: Vec<_> = p
        .squares
        .iter()
        .map(|s| (s.label, s.across_entry, s.down_entry, s.next_across, s.prev_across, s.next_down, s.prev_down))
        .collect();
    let across: Vec<_> = p.across_entries.iter().map(|e| (e.label, e.member_indices.clone(), e.clue.clone())).collect();
    let down: Vec<_> = p.down_entries.iter().map(|e| (e.label, e.member_indices.clone(), e.clue.clone())).collect();
    p.calculate_clues();
    p.calculate_clues();
    let snapshot2: Vec<_> = p
        .squares
        .iter()
        .map(|s| (s.label, s.across_entry, s.down_entry, s.next_across, s.prev_across, s.next_down, s.prev_down))
        .collect();
    let across2: Vec<_> = p.across_entries.iter().map(|e| (e.label, e.member_indices.clone(), e.clue.clone())).collect();
    let down2: Vec<_> = p.down_entries.iter().map(|e| (e.label, e.member_indices.clone(), e.clue.clone())).collect();
    assert_eq!(snapshot, snapshot2);
    assert_eq!(across, across2);
    assert_eq!(down, down2);
}

#[test]
fn links_traverse_each_entry() {
    let mut p = Puzzle::new(PuzzleType::Weekday);
    scramble(&mut p);
    for e in p.across_entries.iter() {
        let mut seen = vec![e.member_indices[0]];
        let mut cur = e.member_indices[0];
        while let Some(n) = p.squares[cur].next_across {
            seen.push(n);
            cur = n;
        }
        assert_eq!(seen, e.member_indices);
        let mut back = vec![cur];
        while let Some(n) = p.squares[cur].prev_across {
            back.push(n);
            cur = n;
        }
        back.reverse();
        assert_eq!(back, e.member_indices);
    }
    for e in p.down_entries.iter() {
        let mut seen = vec![e.member_indices[0]];
        let mut cur = e.member_indices[0];
        while let Some(n) = p.squares[cur].next_down {
            seen.push(n);
            cur = n;
        }
        assert_eq!(seen, e.member_indices);
        let mut back = vec![cur];
        while let Some(n) = p.squares[cur].prev_down {
            back.push(n);
            cur = n;
        }
        back.reverse();
        assert_eq!(back, e.member_indices);
    }
}

#[test]
fn clue_text_stays_with_its_start_cell() {
    let mut p = Puzzle::new(PuzzleType::Mini);
    p.set_clue_text(6, EntryVariant::Across, "row two".to_string());
    p.set_clue_text(3, EntryVariant::Down, "col three".to_string());
    assert_eq!(p.at(0, 1).across_clue_text.as_deref(), Some("row two"));
    p.cycle_blocker(4, 4, false);
    let e = p.across_entries.iter().find(|e| e.member_indices[0] == 5).unwrap();
    assert_eq!(e.clue, "row two");
    let d = p.down_entries.iter().find(|e| e.member_indices[0] == 2).unwrap();
    assert_eq!(d.clue, "col three");
    // Blocking the start of row two moves the start to (1, 1), whose clue is new.
    p.cycle_blocker(0, 1, false);
    let e = p.across_entries.iter().find(|e| e.member_indices[0] == 6).unwrap();
    assert_eq!(e.clue, "");
    assert_eq!(p.at(0, 1).across_clue_text, None);
    assert_eq!(p.at(2, 1).across_clue_text, None);
}

#[test]
fn modifier_cycles_through_three_states() {
    let mut p = Puzzle::new(PuzzleType::Mini);
    assert_eq!(modifier_at(&p, 1, 1), None);
    assert!(p.cycle_modifier(1, 1));
    assert_eq!(modifier_at(&p, 1, 1), Some(SquareModifier::Shading));
    assert!(p.cycle_modifier(1, 1));
    assert_eq!(modifier_at(&p, 1, 1), Some(SquareModifier::Circle));
    assert!(p.cycle_modifier(1, 1));
    assert_eq!(modifier_at(&p, 1, 1), None);
    p.cycle_blocker(1, 1, false);
    assert!(!p.cycle_modifier(1, 1));
    assert!(is_blocker(&p, 1, 1));
}

#[test]
fn modifier_keeps_letters() {
    let mut p = Puzzle::new(PuzzleType::Mini);
    p.modify_sq_contents(0, 0, 'A', false);
    p.cycle_modifier(0, 0);
    assert_eq!(letters_at(&p, 0, 0), "A");
}

#[test]
fn letters_replace_append_and_clear() {
    let mut p = Puzzle::new(PuzzleType::Mini);
    p.cycle_modifier(3, 2);
    p.modify_sq_contents(3, 2, 'A', false);
    assert_eq!(letters_at(&p, 3, 2), "A");
    p.modify_sq_contents(3, 2, 'B', true);
    p.modify_sq_contents(3, 2, 'C', true);
    assert_eq!(letters_at(&p, 3, 2), "ABC");
    p.modify_sq_contents(3, 2, 'Z', false);
    assert_eq!(letters_at(&p, 3, 2), "Z");
    assert_eq!(modifier_at(&p, 3, 2), Some(SquareModifier::Shading));
    p.clear_sq_contents(3, 2);
    assert_eq!(letters_at(&p, 3, 2), "");
    assert_eq!(modifier_at(&p, 3, 2), Some(SquareModifier::Shading));
}

#[test]
fn edits_leave_blockers_alone() {
    let mut p = Puzzle::new(PuzzleType::Mini);
    p.cycle_blocker(2, 3, false);
    p.modify_sq_contents(2, 3, 'X', true);
    p.clear_sq_contents(2, 3);
    assert!(is_blocker(&p, 2, 3));
}

#[test]
fn set_clue_text_updates_entry_and_anchor() {
    let mut p = Puzzle::new(PuzzleType::Mini);
    p.set_clue_text(2, EntryVariant::Down, "Second column".to_string());
    let e = p.down_entries.iter().find(|e| e.label == 2).unwrap();
    assert_eq!(e.clue, "Second column");
    assert_eq!(p.at(1, 0).down_clue_text.as_deref(), Some("Second column"));
    assert_eq!(p.at(1, 0).across_clue_text, None);
    let a = p.across_entries.iter().find(|e| e.label == 1).unwrap();
    assert_eq!(a.clue, "");
}

#[test]
fn clue_entries_and_readouts() {
    let mut p = Puzzle::new(PuzzleType::Mini);
    p.set_clue_text(1, EntryVariant::Across, "Top row".to_string());
    p.set_clue_text(3, EntryVariant::Down, "Middle".to_string());
    let (a, d) = p.get_clue_entries(2, 0);
    assert_eq!(a.unwrap().label, 1);
    assert_eq!(d.unwrap().label, 3);
    let (at, dt) = p.get_square_clue_texts(2, 0);
    assert_eq!(at, "1A: Top row");
    assert_eq!(dt, "3D: Middle");
    let (at, dt) = p.get_square_clue_texts(2, 3);
    assert_eq!(at, "8A: ");
    assert_eq!(dt, "3D: Middle");
    p.cycle_blocker(4, 4, false);
    let (a, d) = p.get_clue_entries(4, 4);
    assert!(a.is_none() && d.is_none());
    assert_eq!(p.get_square_clue_texts(4, 4), (String::new(), String::new()));
}

#[test]
fn readout_of_two_digit_label() {
    let p = Puzzle::new(PuzzleType::Weekday);
    let (at, dt) = p.get_square_clue_texts(11, 0);
    assert_eq!(at, "1A: ");
    assert_eq!(dt, "12D: ");
}

#[test]
fn fill_only_freezes_structure() {
    let mut p = Puzzle::new(PuzzleType::Mini);
    p.fill_only = true;
    p.cycle_blocker(0, 0, false);
    assert!(!is_blocker(&p, 0, 0));
    assert!(!p.cycle_modifier(0, 0));
    assert_eq!(modifier_at(&p, 0, 0), None);
    p.modify_sq_contents(0, 0, 'K', false);
    assert_eq!(letters_at(&p, 0, 0), "K");
    p.set_clue_text(1, EntryVariant::Across, "frozen".to_string());
    assert_eq!(p.across_entries[0].clue, "");
    assert_eq!(p.at(0, 0).across_clue_text.as_deref(), Some(""));
}
