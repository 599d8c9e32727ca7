use takeout_meta::commands::{placement, OutputDir};
use takeout_meta::commands::{
    progress_due, progress_payload, select_media, unique_dst_name, MediaOutcome, ProcessResult,
    SkipReasonSummary, Tool,
};
use takeout_meta::matcher::SkipReason;

#[test]
fn fresh_result() {
    let r = ProcessResult::new("/out".to_string());
    assert_eq!((r.total, r.success, r.skipped, r.failed), (0, 0, 0, 0));
    assert_eq!(r.output_dir, "/out");
    assert!(r.errors.is_empty());
    let s = SkipReasonSummary::default();
    assert_eq!((s.no_json, s.no_timestamp, s.parse_error), (0, 0, 0));
}

#[test]
fn outcomes_are_counted_and_logged() {
    let mut r = ProcessResult::new("/out".to_string());
    r.add_media_count(5);
    let e = r.record_media_outcome("a.jpg".to_string(), MediaOutcome::Written);
    assert_eq!((e.file.as_str(), e.status.as_str(), e.message.as_str()), ("a.jpg", "success", "メタデータを書き込みました"));
    let e = r.record_media_outcome("b.jpg".to_string(), MediaOutcome::WriteFailed("ExifToolエラー(code=1): x ".to_string()));
    assert_eq!((e.status.as_str(), e.message.as_str()), ("failed", "ExifToolエラー(code=1): x "));
    let e = r.record_media_outcome("c.jpg".to_string(), MediaOutcome::Skipped(SkipReason::NoJsonFound));
    assert_eq!((e.status.as_str(), e.message.as_str()), ("skipped", "JSONメタデータが見つかりませんでした"));
    r.record_media_outcome("d.jpg".to_string(), MediaOutcome::Skipped(SkipReason::NoTimestamp));
    let e = r.record_media_outcome("e.mp4".to_string(), MediaOutcome::Skipped(SkipReason::JsonParseError("eof".to_string())));
    assert_eq!(e.message, "JSON解析エラー: eof");
    assert_eq!((r.total, r.success, r.failed, r.skipped), (5, 1, 1, 3));
    assert_eq!((r.skip_reasons.no_json, r.skip_reasons.no_timestamp, r.skip_reasons.parse_error), (1, 1, 1));
    assert_eq!(r.skipped, r.skip_reasons.no_json + r.skip_reasons.no_timestamp + r.skip_reasons.parse_error);
    assert_eq!(r.success + r.skipped + r.failed, r.total);
}

#[test]
fn zip_errors() {
    let mut r = ProcessResult::new("/out".to_string());
    r.record_zip_error("/in/takeout-001.zip", "invalid Zip archive");
    r.record_zip_error("/in/b.zip", "No such file");
    assert_eq!(r.errors, vec!["/in/takeout-001.zip: invalid Zip archive".to_string(), "/in/b.zip: No such file".to_string()]);
}

#[test]
fn progress_every_tenth_and_last() {
    assert!(progress_due(10, 25));
    assert!(progress_due(20, 25));
    assert!(progress_due(25, 25));
    assert!(!progress_due(11, 25));
    assert!(!progress_due(1, 25));
    assert!(progress_due(3, 3));
    let mut r = ProcessResult::new("/out".to_string());
    r.record_media_outcome("a.jpg".to_string(), MediaOutcome::Written);
    let p = progress_payload(&r, 10, 25, "a.jpg".to_string());
    assert_eq!((p.current, p.total, p.success, p.skipped, p.failed), (10, 25, 1, 0, 0));
    assert_eq!(p.current_file, "a.jpg");
}

#[test]
fn numbered_destination_names() {
    assert_eq!(unique_dst_name("photo.jpg", 0), "photo.jpg");
    assert_eq!(unique_dst_name("photo.jpg", 1), "photo_1.jpg");
    assert_eq!(unique_dst_name("photo.jpg", 12), "photo_12.jpg");
    assert_eq!(unique_dst_name("archive.tar.gz", 3), "archive.tar_3.gz");
    assert_eq!(unique_dst_name("README", 2), "README_2");
    assert_eq!(unique_dst_name(".bashrc", 1), ".bashrc_1");
    assert_eq!(unique_dst_name("", 1), "file_1");
    assert_eq!(unique_dst_name("", 0), "");
    assert_eq!(unique_dst_name("a.", 4), "a_4.");
    assert_eq!(unique_dst_name("x.mp4", 4294967295), "x_4294967295.mp4");
}

#[test]
fn numbered_names_are_distinct() {
    let names: Vec<String> = (1u32..200).map(|i| unique_dst_name("a_1.jpg", i)).collect();
    for i in 0..names.len() {
        for j in 0..i {
            assert_ne!(names[i], names[j]);
        }
    }
}

#[test]
fn media_selection() {
    let names: Vec<String> = ["a.jpg", "a.jpg.json", "b.MP4", "notes.txt", "c.heic", "metadata.json"]
        .iter()
        .map(|s| s.to_string())
        .collect();
    assert_eq!(select_media(&names), vec![0, 2, 4]);
    assert_eq!(select_media(&Vec::new()), Vec::<usize>::new());
}

#[test]
fn tools() {
    assert_eq!(Tool::ExifTool.program_name(), "exiftool");
    assert_eq!(Tool::Ffmpeg.program_name(), "ffmpeg");
    assert_eq!(Tool::ExifTool.missing_message(), "ExifToolが見つかりません。インストールされているか確認してください。");
    assert_eq!(Tool::Ffmpeg.missing_message(), "ffmpegが見つかりません。インストールされているか確認してください。");
}

#[test]
fn placements() {
    let p = placement(&MediaOutcome::Written);
    assert_eq!((p.dir, p.copy_unchanged, p.remove_written_copy), (OutputDir::Completed, false, false));
    let p = placement(&MediaOutcome::WriteFailed("x".to_string()));
    assert_eq!((p.dir, p.copy_unchanged, p.remove_written_copy), (OutputDir::Failed, true, true));
    let p = placement(&MediaOutcome::Skipped(SkipReason::NoTimestamp));
    assert_eq!((p.dir, p.copy_unchanged, p.remove_written_copy), (OutputDir::Completed, true, false));
    assert_eq!(OutputDir::Completed.dir_name(), "completed");
    assert_eq!(OutputDir::Failed.dir_name(), "failed");
}

#[test]
fn archive_counts_balance() {
    let mut r = ProcessResult::new("/out".to_string());
    r.add_media_count(2);
    r.record_media_outcome("a".to_string(), MediaOutcome::Written);
    assert!(r.success + r.skipped + r.failed <= r.total);
    r.record_media_outcome("b".to_string(), MediaOutcome::Skipped(SkipReason::NoJsonFound));
    assert_eq!(r.success + r.skipped + r.failed, r.total);
}
