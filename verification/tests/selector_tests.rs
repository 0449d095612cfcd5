use random_video_picker::{
    add_to_history, build_entries, count_picks, pick_index, record, scaled_weight, select,
    AppError, HistoryEntry, VideoEntry, Weight,
};

#[test]
fn test_weight_calculation() {
    let entry_0 = VideoEntry::new(String::from("video1.mp4"), 0);
    let w0: Weight = entry_0.weight();
    assert_eq!(w0.num, 1);
    assert_eq!(w0.den, 1);

    let entry_1 = VideoEntry::new(String::from("video2.mp4"), 1);
    let w1 = entry_1.weight();
    assert_eq!(w1.num, 1);
    assert_eq!(w1.den, 2);

    let entry_3 = VideoEntry::new(String::from("video3.mp4"), 3);
    let w3 = entry_3.weight();
    assert_eq!(w3.num, 1);
    assert_eq!(w3.den, 4);
}

#[test]
fn test_scaled_weight_values() {
    // the draw carries 2^32 / (pick_count + 1), floored at one unit
    assert_eq!(scaled_weight(0), 4294967296);
    assert_eq!(scaled_weight(1), 2147483648);
    assert_eq!(scaled_weight(2), 1431655765);
    assert_eq!(scaled_weight(3), 1073741824);
}

#[test]
fn test_pick_index_brackets() {
    let ws: Vec<u64> = vec![2, 1, 3];
    assert_eq!(pick_index(&ws, 0), 0);
    assert_eq!(pick_index(&ws, 1), 0);
    assert_eq!(pick_index(&ws, 2), 1);
    assert_eq!(pick_index(&ws, 3), 2);
    assert_eq!(pick_index(&ws, 4), 2);
    assert_eq!(pick_index(&ws, 5), 2);
}

#[test]
fn test_build_entries_counts_from_ledger() {
    let mut history: Vec<HistoryEntry> = Vec::new();
    add_to_history(&mut history, "b.mp4", 1);
    add_to_history(&mut history, "b.mp4", 2);
    add_to_history(&mut history, "c.mkv", 3);

    let candidates = vec![String::from("a.avi"), String::from("b.mp4"), String::from("c.mkv")];
    let entries = build_entries(&candidates, &history);
    assert_eq!(entries.len(), 3);
    assert_eq!(entries[0].path, "a.avi");
    assert_eq!(entries[0].pick_count, 0);
    assert_eq!(entries[1].pick_count, 2);
    assert_eq!(entries[2].pick_count, 1);
}

#[test]
fn test_select_single_candidate_always_returned() {
    // with one candidate the draw has nowhere else to land, whatever the
    // ledger holds
    let mut history: Vec<HistoryEntry> = Vec::new();
    for t in 0..25 {
        add_to_history(&mut history, "only.mp4", t);
    }
    let candidates = vec![String::from("only.mp4")];
    for _ in 0..50 {
        let picked = select(&candidates, &history).expect("non-empty set must select");
        assert_eq!(picked.path, "only.mp4");
        assert_eq!(picked.pick_count, 25);
    }
}

#[test]
fn test_select_empty_fails_with_empty_candidate_set() {
    let history: Vec<HistoryEntry> = Vec::new();
    let candidates: Vec<String> = Vec::new();
    let outcome = select(&candidates, &history);
    assert!(matches!(outcome, Err(AppError::EmptyCandidateSet)));
}

#[test]
fn test_select_returns_member_with_its_count() {
    let mut history: Vec<HistoryEntry> = Vec::new();
    add_to_history(&mut history, "b.mp4", 1);
    let candidates = vec![String::from("a.mp4"), String::from("b.mp4")];
    for _ in 0..40 {
        let picked = select(&candidates, &history).unwrap();
        if picked.path == "a.mp4" {
            assert_eq!(picked.pick_count, 0);
        } else {
            assert_eq!(picked.path, "b.mp4");
            assert_eq!(picked.pick_count, 1);
        }
    }
}

#[test]
fn test_select_biases_toward_unpicked() {
    // one candidate never picked, two picked ten times each: over many
    // rounds the unpicked one must take clearly the largest share
    let mut history: Vec<HistoryEntry> = Vec::new();
    for t in 0..10 {
        add_to_history(&mut history, "seen1.mp4", t);
        add_to_history(&mut history, "seen2.mp4", 100 + t);
    }
    let candidates = vec![
        String::from("fresh.mp4"),
        String::from("seen1.mp4"),
        String::from("seen2.mp4"),
    ];
    let mut fresh = 0usize;
    let mut seen1 = 0usize;
    let mut seen2 = 0usize;
    for _ in 0..2000 {
        let picked = select(&candidates, &history).unwrap();
        if picked.path == "fresh.mp4" {
            fresh += 1;
        } else if picked.path == "seen1.mp4" {
            seen1 += 1;
        } else {
            seen2 += 1;
        }
    }
    // expected shares: fresh about 0.85, the others about 0.077 each
    assert!(fresh > seen1 * 3);
    assert!(fresh > seen2 * 3);
    assert!(fresh > 1200);
    // and the draw is not degenerate: the others are hit too
    assert!(seen1 + seen2 > 50);
}

#[test]
fn test_first_record_after_selection() {
    // an empty ledger, three candidates: the first record after a
    // selection gives the picked path count one and leaves the others at
    // zero
    let mut history: Vec<HistoryEntry> = Vec::new();
    let candidates = vec![String::from("x.mp4"), String::from("y.mkv"), String::from("z.avi")];
    let picked = select(&candidates, &history).unwrap();
    assert_eq!(picked.pick_count, 0);
    record(&mut history, &picked.path);
    assert_eq!(count_picks(&history, &picked.path), 1);
    for c in &candidates {
        if *c != picked.path {
            assert_eq!(count_picks(&history, c), 0);
        }
    }
}
