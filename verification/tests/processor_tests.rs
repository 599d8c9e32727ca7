use std::path::Path;
use takeout_meta::processor::video_temp_name;
use takeout_meta::matcher::{is_supported, TakeoutMeta, Timestamp};
use takeout_meta::processor::{
    exiftool_args, extension_kind, ffmpeg_args, file_kind, filetime_parts, prepare_metadata,
    tool_failure_message, unsupported_format_error, FileKind,
};

fn meta_with(ts: Option<&str>) -> TakeoutMeta {
    TakeoutMeta {
        title: None,
        photo_taken_time: Some(Timestamp { timestamp: ts.map(|s| s.to_string()) }),
        creation_time: None,
    }
}

#[test]
fn kinds_of_files() {
    assert_eq!(file_kind("a.jpg"), Some(FileKind::Image));
    assert_eq!(file_kind("a.HEIC"), Some(FileKind::Image));
    assert_eq!(file_kind("a.arw"), Some(FileKind::Image));
    assert_eq!(file_kind("a.mp4"), Some(FileKind::Video));
    assert_eq!(file_kind("a.MKV"), Some(FileKind::Video));
    assert_eq!(file_kind("a.txt"), None);
    assert_eq!(file_kind("mp4"), None);
    assert_eq!(extension_kind("3gp"), Some(FileKind::Video));
    assert_eq!(extension_kind("JPG"), None);
}

#[test]
fn supported_exactly_when_a_kind_is_known() {
    for n in ["a.jpg", "b.MOV", "c.txt", "d", ".png", "e.tif", "f.json", "g.MpEg", "h.gif"] {
        assert_eq!(is_supported(n), file_kind(n).is_some(), "{}", n);
    }
}

#[test]
fn dates_for_the_epoch() {
    let plan = prepare_metadata(&meta_with(Some("0"))).ok().unwrap();
    assert_eq!(plan.timestamp, 0);
    assert_eq!(plan.exif_datetime, "1970:01:01 00:00:00");
    assert_eq!(plan.iso_datetime, "1970-01-01T00:00:00Z");
}

#[test]
fn dates_for_a_recent_photo() {
    let plan = prepare_metadata(&meta_with(Some("1700000000"))).ok().unwrap();
    assert_eq!(plan.timestamp, 1700000000);
    assert_eq!(plan.exif_datetime, "2023:11:14 22:13:20");
    assert_eq!(plan.iso_datetime, "2023-11-14T22:13:20Z");
}

#[test]
fn dates_before_the_epoch() {
    let plan = prepare_metadata(&meta_with(Some("-1"))).ok().unwrap();
    assert_eq!(plan.exif_datetime, "1969:12:31 23:59:59");
}

#[test]
fn metadata_errors() {
    assert_eq!(prepare_metadata(&meta_with(None)).err(), Some("タイムスタンプが見つかりません".to_string()));
    assert_eq!(prepare_metadata(&meta_with(Some("x"))).err(), Some("タイムスタンプが見つかりません".to_string()));
    assert_eq!(
        prepare_metadata(&meta_with(Some("9223372036854775807"))).err(),
        Some("タイムスタンプの変換に失敗しました".to_string())
    );
    assert_eq!(unsupported_format_error(), "未対応のファイル形式");
}

#[test]
fn exiftool_arguments() {
    assert_eq!(
        exiftool_args("2023:11:14 22:13:20", "/out/completed/a.jpg"),
        vec![
            "-overwrite_original",
            "-DateTimeOriginal=2023:11:14 22:13:20",
            "-CreateDate=2023:11:14 22:13:20",
            "-ModifyDate=2023:11:14 22:13:20",
            "/out/completed/a.jpg",
        ]
    );
}

#[test]
fn ffmpeg_arguments() {
    assert_eq!(
        ffmpeg_args("/tmp/x/v.mp4", "2023-11-14T22:13:20Z", "/out/v..__tmp__.mp4"),
        vec![
            "-i",
            "/tmp/x/v.mp4",
            "-c",
            "copy",
            "-map_metadata",
            "0",
            "-metadata",
            "creation_time=2023-11-14T22:13:20Z",
            "-movflags",
            "use_metadata_tags",
            "-y",
            "/out/v..__tmp__.mp4",
        ]
    );
}

#[test]
fn tool_failures() {
    assert_eq!(
        tool_failure_message("ExifTool", Some(1), "  Error: bad file\n", "\n"),
        "ExifToolエラー(code=1): Error: bad file "
    );
    assert_eq!(
        tool_failure_message("ffmpeg", None, "x", " y "),
        "ffmpegエラー(code=-1): x y"
    );
    assert_eq!(
        tool_failure_message("ffmpeg", Some(-2147483648), "", ""),
        "ffmpegエラー(code=-2147483648):  "
    );
}

fn filetime_reference(unix_timestamp: i64) -> (u32, u32) {
    let ticks = (unix_timestamp + 11644473600) * 10_000_000i64;
    ((ticks & 0xFFFF_FFFF) as u32, ((ticks >> 32) & 0xFFFF_FFFF) as u32)
}

#[test]
fn windows_file_times() {
    assert_eq!(filetime_parts(0), (0xD53E_8000, 0x019D_B1DE));
    for t in [0i64, 1, 1700000000, -11644473600, -11644473601, -20000000000, 900000000000] {
        assert_eq!(filetime_parts(t), filetime_reference(t), "{}", t);
    }
}

#[test]
fn date_range_matches_chrono() {
    for secs in [-8334601228800i64, -8334601228801, -8334601315200, 8210266876799, 8210266876800, 0, i64::MIN, i64::MAX] {
        let text = secs.to_string();
        let lib = prepare_metadata(&meta_with(Some(&text))).is_ok();
        let chrono_ok = chrono::DateTime::from_timestamp(secs, 0).is_some();
        assert_eq!(lib, chrono_ok, "{}", secs);
    }
    // the bounds that the contract states
    assert!(chrono::DateTime::from_timestamp(-8334601228800, 0).is_some());
    assert!(chrono::DateTime::from_timestamp(-8334601228801, 0).is_none());
    assert!(chrono::DateTime::from_timestamp(8210266876799, 0).is_some());
    assert!(chrono::DateTime::from_timestamp(8210266876800, 0).is_none());
    assert_eq!(
        prepare_metadata(&meta_with(Some("-8334601228801"))).err(),
        Some("タイムスタンプの変換に失敗しました".to_string())
    );
    let first = prepare_metadata(&meta_with(Some("-8334601228800"))).ok().unwrap();
    assert_eq!(first.iso_datetime, "-262143-01-01T00:00:00Z");
    let plan = prepare_metadata(&meta_with(Some("8210266876799"))).ok().unwrap();
    assert_eq!(plan.iso_datetime, "+262142-12-31T23:59:59Z");
}

#[test]
fn temp_names_follow_with_extension() {
    for n in ["v.mp4", "clip.MOV", "a.b.c", "noext", ".hidden", "x.", "..."] {
        let expected = Path::new(n).with_extension(".__tmp__.mp4");
        assert_eq!(video_temp_name(n).as_deref(), expected.to_str(), "{}", n);
    }
    assert_eq!(video_temp_name("v.mp4").unwrap(), "v..__tmp__.mp4");
    assert_eq!(video_temp_name(""), None);
}
