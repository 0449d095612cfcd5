use random_video_picker::{
    add_to_history, count_picks, encode_history, load_history, parse_history, record,
    HistoryEntry,
};

#[test]
fn test_add_and_load_history() {
    let mut history: Vec<HistoryEntry> = Vec::new();

    add_to_history(&mut history, "/path/to/video.mp4", 1_700_000_000_000_000);

    assert_eq!(history.len(), 1);
    assert_eq!(history[0].path, "/path/to/video.mp4");

    let text = encode_history(&history);
    let (loaded_history, corrupt) = load_history(Some(text.as_str()));
    assert!(!corrupt);
    assert_eq!(loaded_history.len(), 1);
    assert_eq!(loaded_history[0].path, "/path/to/video.mp4");
    assert_eq!(history[0].picked_at, loaded_history[0].picked_at);
}

#[test]
fn test_load_history_empty() {
    // no persisted file at all: an empty history, and nothing to warn about
    let (history, corrupt) = load_history(None);
    assert!(history.is_empty());
    assert!(!corrupt);
}

#[test]
fn test_load_history_corrupt_text_is_empty_with_warning() {
    let (history, corrupt) = load_history(Some("this is not a ledger"));
    assert!(history.is_empty());
    assert!(corrupt);

    let (history2, corrupt2) = load_history(Some(""));
    assert!(history2.is_empty());
    assert!(corrupt2);
}

#[test]
fn test_load_history_empty_brackets() {
    let (history, corrupt) = load_history(Some("[]"));
    assert!(history.is_empty());
    assert!(!corrupt);
}

#[test]
fn test_round_trip_many_entries() {
    // paths with quotes, backslashes and non-ASCII characters, instants
    // positive, zero and negative: all must survive the trip exactly
    let mut history: Vec<HistoryEntry> = Vec::new();
    add_to_history(&mut history, "/videos/plain.mp4", 3);
    add_to_history(&mut history, "/videos/with \"quotes\".mkv", 2);
    add_to_history(&mut history, "/videos/back\\slash.avi", -5);
    add_to_history(&mut history, "/videos/s\u{00e9}ance.webm", 0);
    add_to_history(&mut history, "/videos/plain.mp4", 9_223_372_036_854_775_807);

    let text = encode_history(&history);
    let reloaded = parse_history(text.as_str()).expect("canonical text must parse");
    assert_eq!(reloaded.len(), history.len());
    for k in 0..history.len() {
        assert_eq!(reloaded[k].path, history[k].path);
        assert_eq!(reloaded[k].picked_at, history[k].picked_at);
    }
}

#[test]
fn test_encoded_shape_is_readable() {
    let mut history: Vec<HistoryEntry> = Vec::new();
    add_to_history(&mut history, "a.mp4", 7);
    let text = encode_history(&history);
    assert_eq!(text, "[\n  {\"path\": \"a.mp4\", \"picked_at\": 7}\n]");

    let empty: Vec<HistoryEntry> = Vec::new();
    assert_eq!(encode_history(&empty), "[]");
}

#[test]
fn test_count_picks_exact_string_match() {
    let mut history: Vec<HistoryEntry> = Vec::new();
    add_to_history(&mut history, "/v/a.mp4", 1);
    add_to_history(&mut history, "/v/b.mp4", 2);
    add_to_history(&mut history, "/v/a.mp4", 3);

    assert_eq!(count_picks(&history, "/v/a.mp4"), 2);
    assert_eq!(count_picks(&history, "/v/b.mp4"), 1);
    assert_eq!(count_picks(&history, "/v/A.mp4"), 0);
    assert_eq!(count_picks(&history, "/v/a.mp"), 0);
}

#[test]
fn test_record_is_monotone() {
    // one record raises exactly the recorded path's count by one
    let mut history: Vec<HistoryEntry> = Vec::new();
    add_to_history(&mut history, "x.mp4", 10);
    add_to_history(&mut history, "y.mkv", 11);

    let x_before = count_picks(&history, "x.mp4");
    let y_before = count_picks(&history, "y.mkv");
    record(&mut history, "x.mp4");
    assert_eq!(count_picks(&history, "x.mp4"), x_before + 1);
    assert_eq!(count_picks(&history, "y.mkv"), y_before);
}

#[test]
fn test_history_kept_most_recent_first() {
    let mut history: Vec<HistoryEntry> = Vec::new();
    add_to_history(&mut history, "a.mp4", 10);
    add_to_history(&mut history, "b.mp4", 30);
    add_to_history(&mut history, "c.mp4", 20);

    assert_eq!(history[0].picked_at, 30);
    assert_eq!(history[1].picked_at, 20);
    assert_eq!(history[2].picked_at, 10);

    // equal instants: the newer entry goes after the older one
    add_to_history(&mut history, "d.mp4", 20);
    assert_eq!(history[1].path, "c.mp4");
    assert_eq!(history[2].path, "d.mp4");
}
