use random_video_picker::{
    file_name_of, find_video_files, get_history_path, get_or_scan, is_video_file, sort_paths,
    AppError, ScanCache,
};

#[test]
fn test_find_video_files_recursive() {
    // the walk of the tree hands over every file it saw, here the top
    // level and a subdirectory; discovery keeps the videos
    let walked = vec![
        String::from("root/video1.mp4"),
        String::from("root/image.jpg"),
        String::from("root/subdir/video2.mkv"),
    ];
    let files = find_video_files(&walked);
    assert_eq!(files.len(), 2);

    let file_names: Vec<String> = files.iter().map(|p| file_name_of(p)).collect();
    assert!(file_names.contains(&"video1.mp4".to_string()));
    assert!(file_names.contains(&"video2.mkv".to_string()));
}

#[test]
fn test_find_video_files_non_recursive() {
    // with recursion off the walk never enters the subdirectory, so its
    // video is not among the walked files
    let walked = vec![String::from("root/video1.mp4")];
    let files = find_video_files(&walked);
    assert_eq!(files.len(), 1);
    assert_eq!(file_name_of(&files[0]), "video1.mp4");
}

#[test]
fn test_candidate_discovery_excludes_by_extension() {
    // the scenario of the spec: x.mp4 and y.mkv stay, z.txt is excluded,
    // and the result is sorted deterministically
    let walked = vec![
        String::from("root/z.txt"),
        String::from("root/y.mkv"),
        String::from("root/x.mp4"),
    ];
    let files = find_video_files(&walked);
    assert_eq!(files, vec![String::from("root/x.mp4"), String::from("root/y.mkv")]);
}

#[test]
fn test_is_video_file_cases() {
    assert!(is_video_file("a.mp4"));
    assert!(is_video_file("a.MP4"));
    assert!(is_video_file("dir.mp4/b.WebM"));
    assert!(is_video_file("x.mpeg"));
    assert!(!is_video_file("a.txt"));
    assert!(!is_video_file("a"));
    assert!(!is_video_file(".mp4"));
    assert!(!is_video_file("dir/.mkv"));
    assert!(!is_video_file("dir.mp4/file"));
    assert!(!is_video_file("a.mp4.part"));
    assert!(is_video_file("weird name with spaces.mov"));
}

#[test]
fn test_sort_paths_orders_and_keeps_duplicates() {
    let v = vec![
        String::from("b.mp4"),
        String::from("a.mp4"),
        String::from("b.mp4"),
        String::from("A.mp4"),
    ];
    let sorted = sort_paths(v);
    assert_eq!(
        sorted,
        vec![
            String::from("A.mp4"),
            String::from("a.mp4"),
            String::from("b.mp4"),
            String::from("b.mp4"),
        ]
    );
}

#[test]
fn test_get_history_path_joins_data_dir() {
    let p = get_history_path("/home/u/.local/share/random_video_picker");
    assert_eq!(p, "/home/u/.local/share/random_video_picker/history.json");
}

#[test]
fn test_file_name_of() {
    assert_eq!(file_name_of("/a/b/c.mp4"), "c.mp4");
    assert_eq!(file_name_of("plain.mkv"), "plain.mkv");
    assert_eq!(file_name_of("dir/"), "");
}

#[test]
fn test_find_video_files_invalid_dir() {
    // a root that is no directory: the walk around the library reports it,
    // discovery never runs, and the round comes back as an error
    let scanner = |root: &str, _recursive: bool| -> Result<Vec<String>, AppError> {
        Err(AppError::InvalidRoot { path: root.to_string() })
    };
    let mut cache = ScanCache::new();
    let (result, _) = get_or_scan(&mut cache, "file.txt", true, scanner);
    assert!(result.is_err());
}
