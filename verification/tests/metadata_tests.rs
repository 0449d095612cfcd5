use random_video_picker::{
    format_duration_string, parse_ffprobe_output, FfprobeError, ProbeStream, VideoMetadata,
};

#[test]
fn test_format_duration_string() {
    assert_eq!(format_duration_string("100.5"), Some("01:41".to_string()));
    assert_eq!(format_duration_string("3665"), Some("01:01:05".to_string()));
    assert_eq!(format_duration_string("0"), Some("00:00".to_string()));
    assert_eq!(format_duration_string("-5"), None);
    assert_eq!(format_duration_string("invalid"), None);
}

#[test]
fn test_format_duration_string_edges() {
    assert_eq!(format_duration_string(" 59.4 "), Some("00:59".to_string()));
    assert_eq!(format_duration_string("59.5"), Some("01:00".to_string()));
    assert_eq!(format_duration_string("3599.9"), Some("01:00:00".to_string()));
    assert_eq!(format_duration_string("-0.0"), Some("00:00".to_string()));
    assert_eq!(format_duration_string("+12"), Some("00:12".to_string()));
    assert_eq!(format_duration_string(".5"), Some("00:01".to_string()));
    assert_eq!(format_duration_string("7."), Some("00:07".to_string()));
    assert_eq!(format_duration_string(""), None);
    assert_eq!(format_duration_string("1.2.3"), None);
    assert_eq!(format_duration_string("12a"), None);
}

#[test]
fn test_parse_ffprobe_output_full() {
    let streams = vec![
        ProbeStream {
            codec_type: Some("video".to_string()),
            width: Some(1920),
            height: Some(1080),
            duration: Some("100.0".to_string()),
        },
        ProbeStream { codec_type: Some("audio".to_string()), width: None, height: None, duration: None },
    ];
    let metadata: VideoMetadata = parse_ffprobe_output(&streams, Some("100.0"));
    assert_eq!(metadata.resolution, Some("1920x1080".to_string()));
    assert_eq!(metadata.duration, Some("01:40".to_string()));
}

#[test]
fn test_parse_ffprobe_output_missing_video_stream() {
    let streams = vec![ProbeStream {
        codec_type: Some("audio".to_string()),
        width: None,
        height: None,
        duration: None,
    }];
    let metadata = parse_ffprobe_output(&streams, Some("50.0"));
    assert_eq!(metadata.resolution, None);
    assert_eq!(metadata.duration, Some("00:50".to_string()));
}

#[test]
fn test_parse_ffprobe_output_stream_duration_fallback() {
    // no container duration: the video stream's own duration is used
    let streams = vec![ProbeStream {
        codec_type: Some("video".to_string()),
        width: Some(0),
        height: Some(1080),
        duration: Some("61".to_string()),
    }];
    let metadata = parse_ffprobe_output(&streams, None);
    // a zero dimension yields no resolution
    assert_eq!(metadata.resolution, None);
    assert_eq!(metadata.duration, Some("01:01".to_string()));
}

#[test]
fn test_ffprobe_error_accessors() {
    let plain = FfprobeError::new("command failed".to_string());
    assert_eq!(plain.message(), "command failed");
    assert!(plain.source_description().is_none());

    let chained = FfprobeError::with_source("bad report".to_string(), "truncated".to_string());
    assert_eq!(chained.message(), "bad report");
    assert_eq!(chained.source_description(), Some("truncated"));
}
