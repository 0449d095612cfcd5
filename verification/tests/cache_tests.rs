use std::cell::Cell;
use random_video_picker::{get_or_scan, two_rounds_on_same_root, AppError, ScanCache};

#[test]
fn test_get_or_scan_scans_once_for_same_root() {
    // two consecutive rounds on the same root, nothing invalidated in
    // between: the scanner runs at most once
    let calls = Cell::new(0usize);
    let scanner = |_root: &str, _recursive: bool| -> Result<Vec<String>, AppError> {
        calls.set(calls.get() + 1);
        Ok(vec![String::from("/r/a.mp4"), String::from("/r/b.mkv")])
    };

    let mut cache = ScanCache::new();
    let (first, scanned_first) = get_or_scan(&mut cache, "/r", true, scanner);
    assert!(scanned_first);
    assert_eq!(first.unwrap().len(), 2);
    assert_eq!(calls.get(), 1);

    let (second, scanned_second) = get_or_scan(&mut cache, "/r", true, scanner);
    assert!(!scanned_second);
    assert_eq!(second.unwrap(), vec![String::from("/r/a.mp4"), String::from("/r/b.mkv")]);
    assert_eq!(calls.get(), 1);
}

#[test]
fn test_get_or_scan_rescans_after_invalidate() {
    let calls = Cell::new(0usize);
    let scanner = |_root: &str, _recursive: bool| -> Result<Vec<String>, AppError> {
        calls.set(calls.get() + 1);
        Ok(Vec::new())
    };

    let mut cache = ScanCache::new();
    let (_, scanned1) = get_or_scan(&mut cache, "/r", false, scanner);
    cache.invalidate();
    let (_, scanned2) = get_or_scan(&mut cache, "/r", false, scanner);
    assert!(scanned1);
    assert!(scanned2);
    assert_eq!(calls.get(), 2);
}

#[test]
fn test_get_or_scan_rescans_for_other_root() {
    let calls = Cell::new(0usize);
    let scanner = |root: &str, _recursive: bool| -> Result<Vec<String>, AppError> {
        calls.set(calls.get() + 1);
        Ok(vec![format!("{}/x.mp4", root)])
    };

    let mut cache = ScanCache::new();
    let (a, _) = get_or_scan(&mut cache, "/one", true, scanner);
    let (b, _) = get_or_scan(&mut cache, "/two", true, scanner);
    assert_eq!(a.unwrap(), vec![String::from("/one/x.mp4")]);
    assert_eq!(b.unwrap(), vec![String::from("/two/x.mp4")]);
    assert_eq!(calls.get(), 2);
}

#[test]
fn test_get_or_scan_empty_result_is_cached() {
    // "no files found" is a valid, cacheable outcome
    let calls = Cell::new(0usize);
    let scanner = |_root: &str, _recursive: bool| -> Result<Vec<String>, AppError> {
        calls.set(calls.get() + 1);
        Ok(Vec::new())
    };

    let mut cache = ScanCache::new();
    let (first, _) = get_or_scan(&mut cache, "/r", true, scanner);
    let (second, scanned_second) = get_or_scan(&mut cache, "/r", true, scanner);
    assert!(first.unwrap().is_empty());
    assert!(second.unwrap().is_empty());
    assert!(!scanned_second);
    assert_eq!(calls.get(), 1);
}

#[test]
fn test_get_or_scan_failure_empties_cache() {
    // a failed scan leaves no trustworthy record: the error comes back and
    // the next round scans afresh
    let calls = Cell::new(0usize);
    let scanner = |root: &str, _recursive: bool| -> Result<Vec<String>, AppError> {
        calls.set(calls.get() + 1);
        if calls.get() == 1 {
            Err(AppError::ScanFailed { path: root.to_string(), message: String::from("denied") })
        } else {
            Ok(vec![String::from("/r/late.mp4")])
        }
    };

    let mut cache = ScanCache::new();
    let (first, scanned1) = get_or_scan(&mut cache, "/r", true, scanner);
    assert!(scanned1);
    assert!(matches!(first, Err(AppError::ScanFailed { .. })));

    let (second, scanned2) = get_or_scan(&mut cache, "/r", true, scanner);
    assert!(scanned2);
    assert_eq!(second.unwrap(), vec![String::from("/r/late.mp4")]);
    assert_eq!(calls.get(), 2);
}

#[test]
fn test_two_rounds_on_same_root() {
    let calls = Cell::new(0usize);
    let scanner = |_root: &str, _recursive: bool| -> Result<Vec<String>, AppError> {
        calls.set(calls.get() + 1);
        Ok(vec![String::from("/r/a.mp4")])
    };
    let mut cache = ScanCache::new();
    let (first, second) = two_rounds_on_same_root(&mut cache, "/r", true, scanner, scanner);
    assert!(first.1);
    assert!(!second.1);
    assert_eq!(first.0.unwrap(), second.0.unwrap());
    assert_eq!(calls.get(), 1);
}
