//! What is written into a media file: its kind, the capture date in the
//! formats the tools take, the tools' arguments and their error messages.

use vstd::prelude::*;
use vstd::string::*;
use crate::file_name::{extension, file_stem, path_extension, path_file_stem};
use crate::matcher::{
    TakeoutMeta, is_supported_name, list_contains, supported_extensions,
};
use crate::text::{decimal_digits, decimal_i64, decimal_signed, digit_char, join, lookup_key, to_lowercase, trim, trimmed_of};

verus! {

/// How a media file gets its metadata written.
#[derive(Debug, Clone, Copy, PartialEq, Eq, Structural)]
pub enum FileKind {
    Image,
    Video,
}

/// Lower-case extensions of the image files, written by ExifTool.
pub open spec fn image_extensions() -> Seq<Seq<char>> {
    seq!["jpg"@, "jpeg"@, "png"@, "webp"@, "tiff"@, "tif"@, "heic"@, "dng"@, "cr2"@, "nef"@, "arw"@]
}

/// Lower-case extensions of the video files, written by ffmpeg.
pub open spec fn video_extensions() -> Seq<Seq<char>> {
    seq!["mp4"@, "mov"@, "m4v"@, "3gp"@, "mpg"@, "mpeg"@, "mkv"@]
}

/// The kind of a file whose lower-cased extension is `lower_ext`.
pub open spec fn kind_of_extension(lower_ext: Seq<char>) -> Option<FileKind> {
    if image_extensions().contains(lower_ext) {
        Some(FileKind::Image)
    } else if video_extensions().contains(lower_ext) {
        Some(FileKind::Video)
    } else {
        None
    }
}

/// The kind of the file named `name`, from its lower-cased extension.
pub open spec fn file_kind_of(name: Seq<char>) -> Option<FileKind> {
    match path_extension(name) {
        Some(e) => kind_of_extension(lookup_key(e)),
        None => None,
    }
}

/// The kind of a file whose extension, already lower-cased, is `lower_ext`.
pub fn extension_kind(lower_ext: &str) -> (r: Option<FileKind>)
    ensures
        r == kind_of_extension(lower_ext@),
{
    let images = vec!["jpg", "jpeg", "png", "webp", "tiff", "tif", "heic", "dng", "cr2", "nef", "arw"];
    assert(images.deep_view() =~= image_extensions());
    let videos = vec!["mp4", "mov", "m4v", "3gp", "mpg", "mpeg", "mkv"];
    assert(videos.deep_view() =~= video_extensions());
    if list_contains(&images, lower_ext) {
        Some(FileKind::Image)
    } else if list_contains(&videos, lower_ext) {
        Some(FileKind::Video)
    } else {
        None
    }
}

/// The kind of the file named `file_name`.
pub fn file_kind(file_name: &str) -> (r: Option<FileKind>)
    ensures
        r == file_kind_of(file_name@),
{
    match extension(file_name) {
        Some(e) => {
            let lower = to_lowercase(e);
            extension_kind(lower.as_str())
        },
        None => None,
    }
}

/// A file is handled exactly when it has a kind: the handled extensions are
/// the image ones and the video ones.
pub proof fn lemma_supported_iff_kind(name: Seq<char>)
    ensures
        is_supported_name(name) <==> file_kind_of(name) is Some,
{
    assert(supported_extensions() =~= image_extensions() + video_extensions());
    if let Some(e) = path_extension(name) {
        let l = lookup_key(e);
        let s = supported_extensions();
        let a = image_extensions();
        let b = video_extensions();
        if s.contains(l) {
            let i = choose|i: int| 0 <= i < s.len() && s[i] == l;
            if i < a.len() {
                assert(a[i] == l);
            } else {
                assert(b[i - a.len()] == l);
            }
        }
        if a.contains(l) {
            let i = choose|i: int| 0 <= i < a.len() && a[i] == l;
            assert(s[i] == l);
        }
        if b.contains(l) {
            let i = choose|i: int| 0 <= i < b.len() && b[i] == l;
            assert(s[i + a.len()] == l);
        }
    }
}

/// The `strftime` pattern of the EXIF date fields: `YYYY:MM:DD HH:MM:SS`.
pub open spec fn exif_pattern() -> Seq<char> {
    "%Y:%m:%d %H:%M:%S"@
}

/// The `strftime` pattern of the video creation time: ISO 8601 in UTC.
pub open spec fn iso_pattern() -> Seq<char> {
    "%Y-%m-%dT%H:%M:%SZ"@
}

/// Seconds from the Unix epoch to the earliest date chrono holds,
/// -262143-01-01T00:00:00Z.
pub open spec fn earliest_utc_timestamp() -> int {
    -8334601228800
}

/// Seconds from the Unix epoch to the latest date chrono holds,
/// 262142-12-31T23:59:59Z.
pub open spec fn latest_utc_timestamp() -> int {
    8210266876799
}

/// `DateTime::<Utc>::from_timestamp(secs, 0)` gives a date: `secs` lies
/// between chrono's earliest and latest dates (years -262143 to 262142).
pub open spec fn utc_timestamp_in_range(secs: i64) -> bool {
    earliest_utc_timestamp() <= secs && secs <= latest_utc_timestamp()
}

/// A leap year of the proleptic Gregorian calendar (year 0 is 1 BCE).
pub open spec fn is_leap_year(y: int) -> bool {
    y % 4 == 0 && (y % 100 != 0 || y % 400 == 0)
}

/// Days in month `m` (1 to 12) of year `y`.
pub open spec fn month_days(y: int, m: int) -> int {
    if m == 2 {
        if is_leap_year(y) {
            29
        } else {
            28
        }
    } else if m == 4 || m == 6 || m == 9 || m == 11 {
        30
    } else {
        31
    }
}

/// Days of year `y` before the first of month `m`.
pub open spec fn days_before_month(y: int, m: int) -> int
    decreases m,
{
    if m <= 1 {
        0
    } else {
        days_before_month(y, m - 1) + month_days(y, m - 1)
    }
}

/// Leap years from year 1 to year `n` (counted downwards, negated, for `n < 0`).
pub open spec fn leap_years_through(n: int) -> int {
    n / 4 - n / 100 + n / 400
}

/// Days from 1970-01-01 to the first of January of year `y`.
pub open spec fn days_before_year(y: int) -> int {
    365 * (y - 1970) + leap_years_through(y - 1) - leap_years_through(1969)
}

/// Days from 1970-01-01 to the date `y`-`m`-`d`.
pub open spec fn day_number(y: int, m: int, d: int) -> int {
    days_before_year(y) + days_before_month(y, m) + d - 1
}

/// `y`-`m`-`d` is a date of the proleptic Gregorian calendar.
pub open spec fn is_valid_date(y: int, m: int, d: int) -> bool {
    1 <= m <= 12 && 1 <= d <= month_days(y, m)
}

/// `n` (0 to 99) in two decimal digits.
pub open spec fn two_digit_text(n: int) -> Seq<char> {
    seq![digit_char(n / 10), digit_char(n % 10)]
}

/// `n` in decimal, zero-padded to four digits.
pub open spec fn padded_year_digits(n: nat) -> Seq<char> {
    let v = n as int;
    if n < 10000 {
        seq![digit_char(v / 1000), digit_char(v / 100 % 10), digit_char(v / 10 % 10), digit_char(v % 10)]
    } else {
        decimal_digits(n)
    }
}

/// Year `y` as `%Y` writes it: four digits for years 0 to 9999, else a sign
/// and at least four digits.
pub open spec fn year_text(y: int) -> Seq<char> {
    if 0 <= y <= 9999 {
        padded_year_digits(y as nat)
    } else if y < 0 {
        seq!['-'] + padded_year_digits((-y) as nat)
    } else {
        seq!['+'] + padded_year_digits(y as nat)
    }
}

/// The date `y`-`m`-`d` and the time `secs_of_day` seconds after midnight,
/// written as `pattern` (the EXIF or the ISO 8601 one) lays them out.
pub open spec fn date_time_text(pattern: Seq<char>, y: int, m: int, d: int, secs_of_day: int) -> Seq<char> {
    let hh = two_digit_text(secs_of_day / 3600);
    let mm = two_digit_text(secs_of_day % 3600 / 60);
    let ss = two_digit_text(secs_of_day % 60);
    if pattern == exif_pattern() {
        year_text(y) + seq![':'] + two_digit_text(m) + seq![':'] + two_digit_text(d) + seq![' ']
            + hh + seq![':'] + mm + seq![':'] + ss
    } else {
        year_text(y) + seq!['-'] + two_digit_text(m) + seq!['-'] + two_digit_text(d) + seq!['T']
            + hh + seq![':'] + mm + seq![':'] + ss + seq!['Z']
    }
}

/// `t` is the UTC date and time of `secs` seconds after the Unix epoch,
/// written as `pattern` lays them out: the date is the one whose day number
/// is `secs` divided by 86400 (rounded down), the time of day the rest.
pub open spec fn is_utc_text(secs: int, pattern: Seq<char>, t: Seq<char>) -> bool {
    exists|y: int, m: int, d: int|
        #![trigger day_number(y, m, d)]
        is_valid_date(y, m, d) && day_number(y, m, d) == secs / 86400 && t == date_time_text(
            pattern,
            y,
            m,
            d,
            secs % 86400,
        )
}

proof fn lemma_leap_step(y: int)
    ensures
        leap_years_through(y) - leap_years_through(y - 1) == (if is_leap_year(y) {
            1int
        } else {
            0int
        }),
{
    assert(y / 4 - (y - 1) / 4 == (if y % 4 == 0 {
        1int
    } else {
        0int
    }));
    assert(y / 100 - (y - 1) / 100 == (if y % 100 == 0 {
        1int
    } else {
        0int
    }));
    assert(y / 400 - (y - 1) / 400 == (if y % 400 == 0 {
        1int
    } else {
        0int
    }));
    if y % 400 == 0 {
        assert(y % 100 == 0 && y % 4 == 0);
    }
    if y % 100 == 0 {
        assert(y % 4 == 0);
    }
}

proof fn lemma_year_length(y: int)
    ensures
        days_before_year(y + 1) == days_before_year(y) + days_before_month(y, 13),
        days_before_month(y, 13) == 365 + (if is_leap_year(y) {
            1int
        } else {
            0int
        }),
{
    lemma_leap_step(y);
    reveal_with_fuel(days_before_month, 13);
}

proof fn lemma_days_before_year_grows(y1: int, y2: int)
    requires
        y1 < y2,
    ensures
        days_before_year(y1) + days_before_month(y1, 13) <= days_before_year(y2),
    decreases y2 - y1,
{
    lemma_year_length(y1);
    if y1 + 1 < y2 {
        lemma_days_before_year_grows(y1 + 1, y2);
        lemma_year_length(y1 + 1);
    }
}

proof fn lemma_days_before_month_grows(y: int, m1: int, m2: int)
    requires
        1 <= m1 < m2 <= 13,
    ensures
        days_before_month(y, m1) + month_days(y, m1) <= days_before_month(y, m2),
        days_before_month(y, m1) >= 0,
    decreases m2 - m1,
{
    if m1 + 1 < m2 {
        lemma_days_before_month_grows(y, m1 + 1, m2);
    }
    lemma_days_before_month_nonneg(y, m1);
}

proof fn lemma_days_before_month_nonneg(y: int, m: int)
    ensures
        days_before_month(y, m) >= 0,
    decreases m,
{
    if m > 1 {
        lemma_days_before_month_nonneg(y, m - 1);
    }
}

/// Two dates of the calendar with the same day number are the same date:
/// each day since the epoch has one date.
pub proof fn lemma_day_number_injective(y1: int, m1: int, d1: int, y2: int, m2: int, d2: int)
    requires
        is_valid_date(y1, m1, d1),
        is_valid_date(y2, m2, d2),
        day_number(y1, m1, d1) == day_number(y2, m2, d2),
    ensures
        y1 == y2 && m1 == m2 && d1 == d2,
{
    lemma_days_before_month_nonneg(y1, m1);
    lemma_days_before_month_nonneg(y2, m2);
    if m1 < 12 {
        lemma_days_before_month_grows(y1, m1, 13);
    } else {
        reveal_with_fuel(days_before_month, 13);
    }
    if m2 < 12 {
        lemma_days_before_month_grows(y2, m2, 13);
    } else {
        reveal_with_fuel(days_before_month, 13);
    }
    if y1 < y2 {
        lemma_days_before_year_grows(y1, y2);
    } else if y2 < y1 {
        lemma_days_before_year_grows(y2, y1);
    } else {
        if m1 < m2 {
            lemma_days_before_month_grows(y1, m1, m2);
        } else if m2 < m1 {
            lemma_days_before_month_grows(y1, m2, m1);
        }
    }
}

/// The date and time text of a moment is determined by the moment and the
/// pattern: two texts that both write `secs` in `pattern` are equal.
pub proof fn lemma_utc_text_unique(secs: int, pattern: Seq<char>, t1: Seq<char>, t2: Seq<char>)
    requires
        is_utc_text(secs, pattern, t1),
        is_utc_text(secs, pattern, t2),
    ensures
        t1 == t2,
{
    let (y1, m1, d1) = choose|y: int, m: int, d: int|
        #![trigger day_number(y, m, d)]
        is_valid_date(y, m, d) && day_number(y, m, d) == secs / 86400 && t1 == date_time_text(
            pattern,
            y,
            m,
            d,
            secs % 86400,
        );
    let (y2, m2, d2) = choose|y: int, m: int, d: int|
        #![trigger day_number(y, m, d)]
        is_valid_date(y, m, d) && day_number(y, m, d) == secs / 86400 && t2 == date_time_text(
            pattern,
            y,
            m,
            d,
            secs % 86400,
        );
    lemma_day_number_injective(y1, m1, d1, y2, m2, d2);
}

proof fn lemma_year_upward(days: int, y: int) -> (r: int)
    requires
        days_before_year(y) <= days,
    ensures
        days_before_year(r) <= days < days_before_year(r + 1),
    decreases days - days_before_year(y),
{
    lemma_year_length(y);
    if days < days_before_year(y + 1) {
        y
    } else {
        lemma_year_upward(days, y + 1)
    }
}

proof fn lemma_year_downward(days: int, y: int) -> (r: int)
    requires
        days < days_before_year(y + 1),
    ensures
        days_before_year(r) <= days < days_before_year(r + 1),
    decreases days_before_year(y + 1) - days,
{
    lemma_year_length(y);
    if days_before_year(y) <= days {
        y
    } else {
        lemma_year_downward(days, y - 1)
    }
}

proof fn lemma_month_of(y: int, n: int, m: int) -> (r: int)
    requires
        1 <= m <= 12,
        days_before_month(y, m) <= n < days_before_month(y, 13),
    ensures
        1 <= r <= 12,
        days_before_month(y, r) <= n < days_before_month(y, r + 1),
    decreases 12 - m,
{
    if n < days_before_month(y, m + 1) {
        m
    } else {
        if m == 12 {
            assert(days_before_month(y, 13) == days_before_month(y, m + 1));
        }
        lemma_month_of(y, n, m + 1)
    }
}

/// Every day since (or before) the epoch has a date of the calendar.
pub proof fn lemma_every_day_has_a_date(days: int)
    ensures
        exists|y: int, m: int, d: int|
            #![trigger day_number(y, m, d)]
            is_valid_date(y, m, d) && day_number(y, m, d) == days,
{
    let y = if days >= 0 {
        lemma_year_upward(days, 1970)
    } else {
        lemma_year_downward(days, 1969)
    };
    lemma_year_length(y);
    let n = days - days_before_year(y);
    let m = lemma_month_of(y, n, 1);
    let d = n - days_before_month(y, m) + 1;
    assert(is_valid_date(y, m, d) && day_number(y, m, d) == days);
}

/// Every moment has its text in each pattern.
pub proof fn lemma_utc_text_exists(secs: int, pattern: Seq<char>)
    ensures
        exists|t: Seq<char>| is_utc_text(secs, pattern, t),
{
    lemma_every_day_has_a_date(secs / 86400);
    let (y, m, d) = choose|y: int, m: int, d: int|
        #![trigger day_number(y, m, d)]
        is_valid_date(y, m, d) && day_number(y, m, d) == secs / 86400;
    let t = date_time_text(pattern, y, m, d, secs % 86400);
    assert(is_utc_text(secs, pattern, t));
}

/// Name for the text that `DateTime::format(pattern)` writes, as a string,
/// for the UTC date of `secs` seconds after the Unix epoch.
pub uninterp spec fn utc_formatted(secs: i64, pattern: Seq<char>) -> Seq<char>;

/// Calls `chrono::DateTime::<Utc>::from_timestamp(secs, 0)` and, on the
/// date it gives, `DateTime::format(pattern)` followed by `to_string`.
/// The contract states when a date is given (`utc_timestamp_in_range`: the
/// range of dates chrono holds), ties the text to `secs` and `pattern`
/// through the name `utc_formatted`, and states what the text holds
/// (`is_utc_text`): `from_timestamp` takes the day `secs.div_euclid(86400)`
/// after 1970-01-01 in the proleptic Gregorian calendar and the time
/// `secs.rem_euclid(86400)` seconds after midnight, and `%Y`, `%m`, `%d`,
/// `%H`, `%M`, `%S` write the year (four digits from 0 to 9999, else signed),
/// month, day, hour, minute and second in two digits each. The pattern is
/// one of the two fixed ones, which hold only valid specifiers (so that
/// `to_string` cannot fail).
#[verifier::external_body]
fn chrono_format_utc(secs: i64, pattern: &str) -> (r: Option<String>)
    requires
        pattern@ == exif_pattern() || pattern@ == iso_pattern(),
    ensures
        r is Some <==> utc_timestamp_in_range(secs),
        r matches Some(t) ==> t@ == utc_formatted(secs, pattern@),
        r matches Some(t) ==> is_utc_text(secs as int, pattern@, t@),
{
    match chrono::DateTime::from_timestamp(secs, 0) {
        Some(dt) => Some(dt.format(pattern).to_string()),
        None => None,
    }
}

/// The capture date of a media file in the forms its tools take.
pub struct MetadataPlan {
    /// Seconds since the Unix epoch.
    pub timestamp: i64,
    /// `YYYY:MM:DD HH:MM:SS`, for ExifTool.
    pub exif_datetime: String,
    /// `YYYY-MM-DDTHH:MM:SSZ`, for ffmpeg.
    pub iso_datetime: String,
}

/// Message when the side-car has no usable timestamp.
pub open spec fn no_timestamp_message() -> Seq<char> {
    "タイムスタンプが見つかりません"@
}

/// Message when the timestamp is outside the dates that can be written.
pub open spec fn conversion_failed_message() -> Seq<char> {
    "タイムスタンプの変換に失敗しました"@
}

/// Message when the file is neither an image nor a video.
pub open spec fn unsupported_format_message() -> Seq<char> {
    "未対応のファイル形式"@
}

/// The error of a file that is neither an image nor a video.
pub fn unsupported_format_error() -> (r: String)
    ensures
        r@ == unsupported_format_message(),
{
    String::from_str("未対応のファイル形式")
}

/// The capture date to write for `meta`, or the error message when it has
/// no usable timestamp or the date cannot be formed.
pub fn prepare_metadata(meta: &TakeoutMeta) -> (r: Result<MetadataPlan, String>)
    ensures
        match meta.spec_taken_timestamp() {
            None => r matches Err(e) && e@ == no_timestamp_message(),
            Some(ts) => if utc_timestamp_in_range(ts) {
                r matches Ok(plan) && plan.timestamp == ts && plan.exif_datetime@ == utc_formatted(
                    ts,
                    exif_pattern(),
                ) && plan.iso_datetime@ == utc_formatted(ts, iso_pattern()) && is_utc_text(
                    ts as int,
                    exif_pattern(),
                    plan.exif_datetime@,
                ) && is_utc_text(ts as int, iso_pattern(), plan.iso_datetime@)
            } else {
                r matches Err(e) && e@ == conversion_failed_message()
            },
        },
{
    let timestamp = match meta.taken_timestamp() {
        Some(t) => t,
        None => {
            return Err(String::from_str("タイムスタンプが見つかりません"));
        },
    };
    let exif_datetime = match chrono_format_utc(timestamp, "%Y:%m:%d %H:%M:%S") {
        Some(s) => s,
        None => {
            return Err(String::from_str("タイムスタンプの変換に失敗しました"));
        },
    };
    let iso_datetime = match chrono_format_utc(timestamp, "%Y-%m-%dT%H:%M:%SZ") {
        Some(s) => s,
        None => {
            return Err(String::from_str("タイムスタンプの変換に失敗しました"));
        },
    };
    Ok(MetadataPlan { timestamp, exif_datetime, iso_datetime })
}

/// The arguments ExifTool is run with to set the three date fields of `dst`
/// in place.
pub open spec fn exiftool_arguments(exif_datetime: Seq<char>, dst: Seq<char>) -> Seq<Seq<char>> {
    seq![
        "-overwrite_original"@,
        "-DateTimeOriginal="@ + exif_datetime,
        "-CreateDate="@ + exif_datetime,
        "-ModifyDate="@ + exif_datetime,
        dst,
    ]
}

/// The arguments ExifTool is run with for an image.
pub fn exiftool_args(exif_datetime: &str, dst: &str) -> (r: Vec<String>)
    ensures
        r.deep_view() == exiftool_arguments(exif_datetime@, dst@),
{
    let mut r: Vec<String> = Vec::new();
    r.push(String::from_str("-overwrite_original"));
    r.push(join("-DateTimeOriginal=", exif_datetime));
    r.push(join("-CreateDate=", exif_datetime));
    r.push(join("-ModifyDate=", exif_datetime));
    r.push(String::from_str(dst));
    assert(r.deep_view() =~= exiftool_arguments(exif_datetime@, dst@));
    r
}

/// The arguments ffmpeg is run with to copy `src` into `tmp` with its
/// streams and metadata and a new creation time.
pub open spec fn ffmpeg_arguments(src: Seq<char>, iso_datetime: Seq<char>, tmp: Seq<char>) -> Seq<Seq<char>> {
    seq![
        "-i"@,
        src,
        "-c"@,
        "copy"@,
        "-map_metadata"@,
        "0"@,
        "-metadata"@,
        "creation_time="@ + iso_datetime,
        "-movflags"@,
        "use_metadata_tags"@,
        "-y"@,
        tmp,
    ]
}

/// The arguments ffmpeg is run with for a video.
pub fn ffmpeg_args(src: &str, iso_datetime: &str, tmp: &str) -> (r: Vec<String>)
    ensures
        r.deep_view() == ffmpeg_arguments(src@, iso_datetime@, tmp@),
{
    let mut r: Vec<String> = Vec::new();
    r.push(String::from_str("-i"));
    r.push(String::from_str(src));
    r.push(String::from_str("-c"));
    r.push(String::from_str("copy"));
    r.push(String::from_str("-map_metadata"));
    r.push(String::from_str("0"));
    r.push(String::from_str("-metadata"));
    r.push(join("creation_time=", iso_datetime));
    r.push(String::from_str("-movflags"));
    r.push(String::from_str("use_metadata_tags"));
    r.push(String::from_str("-y"));
    r.push(String::from_str(tmp));
    assert(r.deep_view() =~= ffmpeg_arguments(src@, iso_datetime@, tmp@));
    r
}

/// The extension that ffmpeg's temporary output gets in place of the video's.
pub open spec fn video_temp_extension() -> Seq<char> {
    ".__tmp__.mp4"@
}

/// The file name that `Path::with_extension(ext)` gives for a file named
/// `name`: its stem, a `.` and `ext` (for a non-empty `ext`); `None` where the
/// name has no stem, and the path is left as it is.
pub open spec fn name_with_extension(name: Seq<char>, ext: Seq<char>) -> Option<Seq<char>> {
    match path_file_stem(name) {
        Some(stem) => Some(stem + "."@ + ext),
        None => None,
    }
}

/// The name of ffmpeg's temporary output for the video copy named `dst_name`.
pub fn video_temp_name(dst_name: &str) -> (r: Option<String>)
    ensures
        r matches Some(t) ==> name_with_extension(dst_name@, video_temp_extension()) == Some(t@),
        r is None ==> name_with_extension(dst_name@, video_temp_extension()) is None,
{
    match file_stem(dst_name) {
        Some(stem) => {
            let mut t = join(stem, ".");
            t.append(".__tmp__.mp4");
            Some(t)
        },
        None => None,
    }
}

/// The error of a tool that exited unsuccessfully: its name, its exit code
/// (`-1` when it has none), and its trimmed error and standard output.
pub open spec fn tool_failure_text(tool: Seq<char>, code: Option<i32>, stderr: Seq<char>, stdout: Seq<char>) -> Seq<char> {
    let c: int = match code {
        Some(v) => v as int,
        None => -1,
    };
    tool + "エラー(code="@ + decimal_signed(c) + "): "@ + trimmed_of(stderr) + " "@ + trimmed_of(stdout)
}

/// The error of a tool (`ExifTool` or `ffmpeg`) that exited unsuccessfully.
pub fn tool_failure_message(tool: &str, code: Option<i32>, stderr: &str, stdout: &str) -> (r: String)
    ensures
        r@ == tool_failure_text(tool@, code, stderr@, stdout@),
{
    let c: i64 = match code {
        Some(v) => v as i64,
        None => -1,
    };
    let mut r = join(tool, "エラー(code=");
    let digits = decimal_i64(c);
    r.append(digits.as_str());
    r.append("): ");
    r.append(trim(stderr));
    r.append(" ");
    r.append(trim(stdout));
    r
}

/// Seconds from 1601-01-01 (the Windows epoch) to 1970-01-01.
pub open spec fn windows_epoch_offset() -> int {
    11644473600
}

/// Seconds from 1601-01-01 to 1970-01-01.
pub fn windows_epoch_offset_secs() -> (r: i64)
    ensures
        r == windows_epoch_offset(),
{
    11644473600
}

/// The Windows file time of `unix_timestamp`: 100 ns ticks since 1601.
pub open spec fn windows_ticks(unix_timestamp: int) -> int {
    (unix_timestamp + windows_epoch_offset()) * 10000000
}

/// The file time of `unix_timestamp` as the low and high 32-bit halves of
/// its 64-bit two's complement form.
pub fn filetime_parts(unix_timestamp: i64) -> (r: (u32, u32))
    requires
        i64::MIN <= windows_ticks(unix_timestamp as int) <= i64::MAX,
    ensures
        r.0 as int + r.1 as int * 0x1_0000_0000 == windows_ticks(unix_timestamp as int)
            % 0x1_0000_0000_0000_0000,
{
    let ticks: i64 = (unix_timestamp + 11644473600) * 10000000;
    let t: u64 = if ticks >= 0 {
        ticks as u64
    } else {
        ((ticks + i64::MAX) + 1) as u64 + 0x8000_0000_0000_0000
    };
    assert(t as int == ticks as int % 0x1_0000_0000_0000_0000);
    let low = (t % 0x1_0000_0000) as u32;
    let high = (t / 0x1_0000_0000) as u32;
    (low, high)
}

/// Videos are told from images by their lower-cased extension: `mp4`,
/// `mov`, `m4v`, `3gp`, `mpg`, `mpeg` and `mkv` name videos (written by
/// ffmpeg); `jpg`, `jpeg`, `png`, `webp`, `tiff`, `tif`, `heic`, `dng`, `cr2`,
/// `nef` and `arw` name images (written by ExifTool); any other extension,
/// or none, names neither.
pub proof fn lemma_kind_by_extension(name: Seq<char>)
    ensures
        file_kind_of(name) == Some(FileKind::Video) <==> match path_extension(name) {
            Some(e) => {
                let l = lookup_key(e);
                l == "mp4"@ || l == "mov"@ || l == "m4v"@ || l == "3gp"@ || l == "mpg"@ || l
                    == "mpeg"@ || l == "mkv"@
            },
            None => false,
        },
        file_kind_of(name) == Some(FileKind::Image) <==> match path_extension(name) {
            Some(e) => {
                let l = lookup_key(e);
                l == "jpg"@ || l == "jpeg"@ || l == "png"@ || l == "webp"@ || l == "tiff"@ || l
                    == "tif"@ || l == "heic"@ || l == "dng"@ || l == "cr2"@ || l == "nef"@ || l
                    == "arw"@
            },
            None => false,
        },
{
    reveal_strlit("mp4");
    reveal_strlit("mov");
    reveal_strlit("m4v");
    reveal_strlit("3gp");
    reveal_strlit("mpg");
    reveal_strlit("mpeg");
    reveal_strlit("mkv");
    reveal_strlit("jpg");
    reveal_strlit("jpeg");
    reveal_strlit("png");
    reveal_strlit("webp");
    reveal_strlit("tiff");
    reveal_strlit("tif");
    reveal_strlit("heic");
    reveal_strlit("dng");
    reveal_strlit("cr2");
    reveal_strlit("nef");
    reveal_strlit("arw");
    if let Some(e) = path_extension(name) {
        let l = lookup_key(e);
        let imgs = image_extensions();
        let vids = video_extensions();
        if imgs.contains(l) {
            let i = choose|i: int| 0 <= i < imgs.len() && imgs[i] == l;
            assert(imgs[i] == l);
        }
        if vids.contains(l) {
            let i = choose|i: int| 0 <= i < vids.len() && vids[i] == l;
            assert(vids[i] == l);
        }
        if l == "mp4"@ || l == "mov"@ || l == "m4v"@ || l == "3gp"@ || l == "mpg"@ || l == "mpeg"@
            || l == "mkv"@ {
            assert(!imgs.contains(l)) by {
                if imgs.contains(l) {
                    let i = choose|i: int| 0 <= i < imgs.len() && imgs[i] == l;
                    assert(imgs[i][0] == l[0] || imgs[i].len() != l.len());
                }
            }
        }
    }
}

} // verus!
