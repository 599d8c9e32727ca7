use takeout_meta::matcher::{
    build_json_candidates, build_json_index, checked_json_candidates, edited_cuts_hold,
    find_meta_for_media, is_json_file, is_supported, is_supported_extension, load_meta,
    remove_repeats, split_stem_ext, try_find_meta_for_media, JsonIndex, SkipReason, TakeoutMeta,
    Timestamp,
};

fn ts(s: Option<&str>) -> Option<Timestamp> {
    Some(Timestamp { timestamp: s.map(|x| x.to_string()) })
}

fn meta(photo: Option<Timestamp>, creation: Option<Timestamp>) -> TakeoutMeta {
    TakeoutMeta { title: Some("IMG_0001.jpg".to_string()), photo_taken_time: photo, creation_time: creation }
}

fn names(list: &[Option<&str>]) -> Vec<Option<String>> {
    list.iter().map(|n| n.map(|s| s.to_string())).collect()
}

#[test]
fn taken_timestamp_prefers_photo_taken_time() {
    assert_eq!(meta(ts(Some("1600000000")), ts(Some("5"))).taken_timestamp(), Some(1600000000));
    assert_eq!(meta(None, ts(Some("5"))).taken_timestamp(), Some(5));
    assert_eq!(meta(ts(None), ts(Some("5"))).taken_timestamp(), Some(5));
    assert_eq!(meta(None, None).taken_timestamp(), None);
    assert_eq!(meta(ts(None), ts(None)).taken_timestamp(), None);
}

#[test]
fn unparsable_photo_time_does_not_fall_back() {
    assert_eq!(meta(ts(Some("abc")), ts(Some("5"))).taken_timestamp(), None);
    assert_eq!(meta(ts(Some("-12")), None).taken_timestamp(), Some(-12));
}

#[test]
fn skip_messages() {
    assert_eq!(SkipReason::NoJsonFound.message(), "JSONメタデータが見つかりませんでした");
    assert_eq!(SkipReason::NoTimestamp.message(), "JSONにタイムスタンプが含まれていません");
    assert_eq!(
        SkipReason::JsonParseError("expected value".to_string()).message(),
        "JSON解析エラー: expected value"
    );
}

#[test]
fn load_meta_outcomes() {
    assert_eq!(
        load_meta(Err("file not found".to_string())).err(),
        Some(SkipReason::JsonParseError("file not found".to_string()))
    );
    assert_eq!(load_meta(Ok(meta(None, None))).err(), Some(SkipReason::NoTimestamp));
    assert_eq!(load_meta(Ok(meta(ts(Some("x")), None))).err(), Some(SkipReason::NoTimestamp));
    let ok = load_meta(Ok(meta(None, ts(Some("42"))))).ok().unwrap();
    assert_eq!(ok.taken_timestamp(), Some(42));
}

#[test]
fn supported_files() {
    assert!(is_supported("IMG_0001.jpg"));
    assert!(is_supported("IMG_0001.JPG"));
    assert!(is_supported("clip.MoV"));
    assert!(is_supported("raw.cr2"));
    assert!(is_supported("a.b.mkv"));
    assert!(!is_supported("IMG_0001.jpg.json"));
    assert!(!is_supported("notes.txt"));
    assert!(!is_supported("jpg"));
    assert!(!is_supported(".jpg"));
    assert!(!is_supported(""));
    assert!(is_supported_extension("heic"));
    assert!(!is_supported_extension("HEIC"));
}

#[test]
fn json_files() {
    assert!(is_json_file("a.json"));
    assert!(is_json_file("a.JSON"));
    assert!(is_json_file("a.jpg.Json"));
    assert!(!is_json_file("json"));
    assert!(!is_json_file(".json"));
    assert!(!is_json_file("a.jsonx"));
}

#[test]
fn index_keys_are_lower_case_and_later_files_win() {
    let files = names(&[
        Some("IMG_1.jpg.json"),
        Some("b.JSON"),
        Some("c.jpg"),
        None,
        Some("img_1.JPG.json"),
        Some("metadata.json"),
    ]);
    let index = build_json_index(&files);
    assert_eq!(index.len(), 3);
    assert_eq!(index.get("img_1.jpg.json"), Some(4));
    assert_eq!(index.get("b.json"), Some(1));
    assert_eq!(index.get("metadata.json"), Some(5));
    assert_eq!(index.get("c.jpg"), None);
    assert_eq!(index.get("IMG_1.jpg.json"), None);
}

#[test]
fn index_insert_and_get() {
    let mut index = JsonIndex::new();
    assert_eq!(index.len(), 0);
    index.insert("a".to_string(), 3);
    index.insert("b".to_string(), 4);
    index.insert("a".to_string(), 7);
    assert_eq!(index.len(), 2);
    assert_eq!(index.get("a"), Some(7));
    assert_eq!(index.get("b"), Some(4));
    assert_eq!(index.get("c"), None);
}

#[test]
fn split_at_last_dot() {
    assert_eq!(split_stem_ext("IMG_0001-edited.jpg"), ("IMG_0001-edited", "jpg"));
    assert_eq!(split_stem_ext("a.b.c"), ("a.b", "c"));
    assert_eq!(split_stem_ext("noext"), ("noext", ""));
    assert_eq!(split_stem_ext(".bashrc"), ("", "bashrc"));
    assert_eq!(split_stem_ext("a."), ("a", ""));
}

#[test]
fn candidates_of_a_short_name() {
    assert_eq!(build_json_candidates("IMG_0001.jpg"), vec!["IMG_0001.jpg.json".to_string()]);
}

#[test]
fn candidates_of_an_edited_file() {
    assert_eq!(
        build_json_candidates("IMG_0001-edited.jpg"),
        vec!["IMG_0001-edited.jpg.json".to_string(), "IMG_0001.jpg.json".to_string()]
    );
    assert_eq!(
        build_json_candidates("Foto-BEARBEITET.png"),
        vec!["Foto-BEARBEITET.png.json".to_string(), "Foto.png.json".to_string()]
    );
    assert_eq!(
        build_json_candidates("photo-modifié.jpg"),
        vec!["photo-modifié.jpg.json".to_string(), "photo.jpg.json".to_string()]
    );
    assert_eq!(
        build_json_candidates("photo(1)"),
        vec!["photo(1).json".to_string(), "photo.json".to_string()]
    );
}

#[test]
fn candidates_of_a_long_name() {
    let name = format!("{}.jpg", "a".repeat(50)); // 54 bytes
    let c = build_json_candidates(&name);
    assert_eq!(
        c,
        vec![
            format!("{}.json", name),
            format!("{}.json", "a".repeat(46)),
            format!("{}.json", "a".repeat(47)),
            format!("{}..json", "a".repeat(50)),
        ]
    );
}

#[test]
fn candidates_of_a_long_multibyte_name() {
    // 20 characters of three bytes each: cuts fall back to a character boundary
    let name = "あ".repeat(20);
    let c = build_json_candidates(&name);
    assert_eq!(
        c,
        vec![
            format!("{}.json", name),
            format!("{}.json", "あ".repeat(15)),
            format!("{}.json", "あ".repeat(17)),
        ]
    );
}

#[test]
fn repeated_candidates_are_removed() {
    // a 47-byte name: the 47 and 51 byte cuts leave it unchanged
    let name = format!("{}-edited.jpg", "b".repeat(36));
    assert_eq!(name.len(), 47);
    let c = build_json_candidates(&name);
    assert_eq!(
        c,
        vec![
            format!("{}.json", name),
            format!("{}.json", &name[..46]),
            format!("{}.jpg.json", "b".repeat(36)),
        ]
    );
    let v = vec!["x".to_string(), "y".to_string(), "x".to_string(), "z".to_string(), "y".to_string()];
    assert_eq!(remove_repeats(v), vec!["x".to_string(), "y".to_string(), "z".to_string()]);
}

#[test]
fn checked_candidates_agree() {
    assert!(edited_cuts_hold("IMG_0001-edited.jpg"));
    assert_eq!(
        checked_json_candidates("IMG_0001-edited.jpg"),
        Some(build_json_candidates("IMG_0001-edited.jpg"))
    );
}

#[test]
fn edited_file_finds_unedited_side_car() {
    let files = names(&[Some("IMG_0001.jpg"), Some("IMG_0001.jpg.json"), Some("IMG_0001-edited.jpg")]);
    let index = build_json_index(&files);
    assert_eq!(find_meta_for_media(Some("IMG_0001-edited.jpg"), &index), Ok(1));
    assert_eq!(find_meta_for_media(Some("IMG_0001.jpg"), &index), Ok(1));
}

#[test]
fn exact_side_car_is_preferred() {
    let files = names(&[Some("IMG_0001.jpg.json"), Some("IMG_0001-edited.jpg.json")]);
    let index = build_json_index(&files);
    assert_eq!(find_meta_for_media(Some("IMG_0001-edited.jpg"), &index), Ok(1));
}

#[test]
fn lookup_ignores_case() {
    let files = names(&[Some("img_0002.JPG.JSON")]);
    let index = build_json_index(&files);
    assert_eq!(find_meta_for_media(Some("IMG_0002.jpg"), &index), Ok(0));
}

#[test]
fn truncated_side_car_is_found() {
    let name = format!("{}.jpg", "c".repeat(50));
    let side_car = format!("{}.json", "c".repeat(46));
    let files = vec![Some(side_car)];
    let index = build_json_index(&files);
    assert_eq!(find_meta_for_media(Some(&name), &index), Ok(0));
}

#[test]
fn missing_side_car() {
    let files = names(&[Some("other.jpg.json")]);
    let index = build_json_index(&files);
    assert_eq!(find_meta_for_media(Some("IMG_0003.jpg"), &index), Err(SkipReason::NoJsonFound));
    assert_eq!(find_meta_for_media(None, &index), Err(SkipReason::NoJsonFound));
    assert_eq!(try_find_meta_for_media(None, &index), Some(Err(SkipReason::NoJsonFound)));
    assert_eq!(try_find_meta_for_media(Some("IMG_0003.jpg"), &index), Some(Err(SkipReason::NoJsonFound)));
}

#[test]
fn unicode_case_is_folded() {
    assert_eq!(
        build_json_candidates("photo-MODIFIÉ.jpg"),
        vec!["photo-MODIFIÉ.jpg.json".to_string(), "photo.jpg.json".to_string()]
    );
    let files = names(&[Some("ÉTÉ.JPG.json")]);
    let index = build_json_index(&files);
    assert_eq!(find_meta_for_media(Some("été.jpg"), &index), Ok(0));
    assert!(is_supported("ÉTÉ.JPEG"));
}

#[test]
fn ascii_case_does_not_change_lookup() {
    let files = names(&[Some("IMG_0004.jpg.json"), Some("img_0005(1).PNG.json")]);
    let index = build_json_index(&files);
    for n in ["IMG_0004.jpg", "img_0004.JPG", "Img_0004-EDITED.jpg", "iMG_0004-edited.Jpg"] {
        assert_eq!(find_meta_for_media(Some(n), &index), Ok(0), "{}", n);
    }
    for n in ["IMG_0005(1).png", "img_0005(1)(1).png", "IMG_0005(1)(2).PNG"] {
        assert_eq!(find_meta_for_media(Some(n), &index), Ok(1), "{}", n);
    }
}

#[test]
fn candidate_shape() {
    let long = format!("{}-edited.jpeg", "x".repeat(45));
    let multi = format!("{}-MODIFIÉ.heic", "写".repeat(20));
    for n in ["IMG_0001.jpg", "IMG_0001-edited.jpg", "a(1)", long.as_str(), multi.as_str(), "", "İ-edited.jpg"] {
        let c = build_json_candidates(n);
        assert!(!c.is_empty() && c.len() <= 8, "{}", n);
        assert_eq!(c[0], format!("{}.json", n));
        for (i, x) in c.iter().enumerate() {
            assert!(x.ends_with(".json"));
            for y in &c[..i] {
                assert_ne!(x, y);
            }
        }
    }
    assert_eq!(build_json_candidates(&long).len(), 7);
    let widest = format!("{}-edited.{}", "y".repeat(40), "z".repeat(15));
    assert_eq!(build_json_candidates(&widest).len(), 8);
}
