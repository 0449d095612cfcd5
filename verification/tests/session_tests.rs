use random_video_picker::{
    decide_stream_response, stream_url, stream_url_base, AppError, Session, SessionAction,
    SessionEvent, SessionState, SharedSelectionSlot, StreamResponse,
};

#[test]
fn test_session_starts_scanning_with_root() {
    let s = Session::new(Some(String::from("/videos")));
    assert!(matches!(s.state, SessionState::Scanning));
    assert_eq!(s.root, Some(String::from("/videos")));
}

#[test]
fn test_session_starts_prompting_without_root() {
    let s = Session::new(None);
    assert!(matches!(s.state, SessionState::AwaitingRoot));
    assert_eq!(s.root, None);
}

#[test]
fn test_session_root_chosen_scans() {
    let mut s = Session::new(None);
    let action = s.step(SessionEvent::RootChosen { root: String::from("/videos") });
    assert!(matches!(action, SessionAction::ScanCurrentRoot));
    assert!(matches!(s.state, SessionState::Scanning));
    assert_eq!(s.root, Some(String::from("/videos")));
    assert!(s.cache.record.is_none());
}

#[test]
fn test_session_scan_failed_prompts_again() {
    let mut s = Session::new(Some(String::from("/bad")));
    let action = s.step(SessionEvent::ScanFailed);
    assert!(matches!(action, SessionAction::PromptForRoot));
    assert!(matches!(s.state, SessionState::AwaitingRoot));
    assert_eq!(s.root, None);
    assert!(s.cache.record.is_none());
}

#[test]
fn test_session_scan_empty_offers_choices() {
    let mut s = Session::new(Some(String::from("/videos")));
    let action = s.step(SessionEvent::ScanEmpty);
    assert!(matches!(action, SessionAction::OfferNoCandidateChoices));
    assert!(matches!(s.state, SessionState::NoCandidates));
    assert_eq!(s.root, Some(String::from("/videos")));
}

#[test]
fn test_session_pick_then_rescan_then_quit() {
    let mut s = Session::new(Some(String::from("/videos")));

    let action = s.step(SessionEvent::ItemPicked { path: String::from("/videos/x.mp4") });
    assert!(matches!(action, SessionAction::OfferSelectionChoices));
    assert!(matches!(s.state, SessionState::Selected));
    assert_eq!(s.root, Some(String::from("/videos")));

    let action = s.step(SessionEvent::UserRequestsRescan);
    assert!(matches!(action, SessionAction::ScanCurrentRoot));
    assert!(matches!(s.state, SessionState::Scanning));
    assert_eq!(s.root, Some(String::from("/videos")));
    assert!(s.cache.record.is_none());

    let action = s.step(SessionEvent::UserQuits);
    assert!(matches!(action, SessionAction::StopAndExit));
    assert!(matches!(s.state, SessionState::ShuttingDown));
}

#[test]
fn test_session_new_root_request_forgets_everything() {
    let mut s = Session::new(Some(String::from("/videos")));
    let action = s.step(SessionEvent::UserRequestsNewRoot);
    assert!(matches!(action, SessionAction::PromptForRoot));
    assert!(matches!(s.state, SessionState::AwaitingRoot));
    assert_eq!(s.root, None);
    assert!(s.cache.record.is_none());
}

#[test]
fn test_stream_video_no_selection() {
    // a request finding the slot empty earns the not-found answer
    let slot = SharedSelectionSlot::new();
    let response = decide_stream_response(slot.get());
    assert!(matches!(response, StreamResponse::NoSelection));
    let url = stream_url("http://10.0.0.2:8080");
    assert_eq!(url, "http://10.0.0.2:8080/stream");
}

#[test]
fn test_stream_video_with_selection() {
    // a request finding a selection earns that file
    let slot = SharedSelectionSlot::new();
    slot.set(String::from("/videos/x.mp4"));
    let response = decide_stream_response(slot.get());
    match response {
        StreamResponse::ServeFile { path } => assert_eq!(path, "/videos/x.mp4"),
        StreamResponse::NoSelection => panic!("a selection was set"),
    }
}

#[test]
fn test_slot_last_write_wins_and_clear() {
    let slot = SharedSelectionSlot::new();
    assert_eq!(slot.get(), None);
    slot.set(String::from("a"));
    assert_eq!(slot.get(), Some(String::from("a")));
    slot.set(String::from("b"));
    assert_eq!(slot.get(), Some(String::from("b")));
    slot.clear();
    assert_eq!(slot.get(), None);
}

#[test]
fn test_stream_url_base_formats_address() {
    assert_eq!(stream_url_base("192.168.1.5", 8080), "http://192.168.1.5:8080");
    assert_eq!(stream_url_base("10.0.0.7", 80), "http://10.0.0.7:80");
}

#[test]
fn test_error_descriptions() {
    assert_eq!(
        AppError::EmptyCandidateSet.describe(),
        "no video entries were available for selection"
    );
    assert_eq!(AppError::CorruptLedger.describe(), "could not parse the persisted history");
    assert_eq!(
        (AppError::InvalidRoot { path: String::from("/x") }).describe(),
        "the path is not a readable directory"
    );
    assert_eq!(
        (AppError::ScanFailed { path: String::from("/x"), message: String::from("io") }).describe(),
        "scanning the folder failed"
    );
    assert_eq!(
        (AppError::ProbeFailed { message: String::from("gone") }).describe(),
        "could not probe video metadata"
    );
    assert_eq!(
        (AppError::StreamingUnavailable { message: String::from("bind") }).describe(),
        "the streaming server is unavailable"
    );
    assert_eq!(
        (AppError::DataDirUnavailable { message: String::from("none") }).describe(),
        "could not determine the application data directory"
    );
    assert_eq!(
        (AppError::PersistFailed { message: String::from("disk") }).describe(),
        "could not save the history"
    );
}
