use random_video_picker::{add_to_history, choose_root, recent_picks, Cli, HistoryEntry};

#[test]
fn test_choose_root_prefers_flag() {
    assert_eq!(
        choose_root(Some(String::from("/flag")), Some(String::from("/env"))),
        Some(String::from("/flag"))
    );
    assert_eq!(choose_root(None, Some(String::from("/env"))), Some(String::from("/env")));
    assert_eq!(choose_root(None, None), None);
}

#[test]
fn test_cli_shape() {
    let cli = Cli { folder: Some(String::from("~/videos")), non_recursive: true, no_streaming: false };
    assert_eq!(choose_root(cli.folder, None), Some(String::from("~/videos")));
    assert!(cli.non_recursive);
    assert!(!cli.no_streaming);
}

#[test]
fn test_recent_picks_limit_and_names() {
    let mut history: Vec<HistoryEntry> = Vec::new();
    for t in 0..25 {
        let path = format!("/videos/clip{}.mp4", t);
        add_to_history(&mut history, &path, t);
    }
    let listing = recent_picks(&history, 20);
    assert_eq!(listing.len(), 20);
    // the ledger is most recent first, so the listing starts at the newest
    assert_eq!(listing[0].0, "clip24.mp4");
    assert_eq!(listing[0].1, 24);
    assert_eq!(listing[19].0, "clip5.mp4");

    let short = recent_picks(&history, 3);
    assert_eq!(short.len(), 3);

    let all = recent_picks(&history, 100);
    assert_eq!(all.len(), 25);
}
