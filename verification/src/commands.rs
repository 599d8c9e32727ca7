//! The bookkeeping of a run over Takeout archives: counts, log entries,
//! progress events and output names.

use vstd::prelude::*;
use vstd::string::*;
use crate::file_name::{extension, file_stem, path_extension, path_file_stem};
use crate::matcher::{SkipReason, is_supported, is_supported_name, skip_message};
use crate::text::{decimal_digits, decimal_u64, join, lemma_decimal_injective};

verus! {

/// A progress event, sent every tenth media file and after the last one.
#[derive(Debug, Clone)]
pub struct ProgressPayload {
    pub current: u32,
    pub total: u32,
    pub success: u32,
    pub skipped: u32,
    pub failed: u32,
    pub current_file: String,
}

/// What happened to one media file.
#[derive(Debug, Clone)]
pub struct LogEntry {
    pub file: String,
    /// `success`, `skipped` or `failed`.
    pub status: String,
    pub message: String,
}

/// How many media files were skipped for each reason.
#[derive(Debug)]
pub struct SkipReasonSummary {
    pub no_json: u32,
    pub no_timestamp: u32,
    pub parse_error: u32,
}

impl Default for SkipReasonSummary {
    fn default() -> (r: Self)
        ensures
            r.no_json == 0,
            r.no_timestamp == 0,
            r.parse_error == 0,
    {
        SkipReasonSummary { no_json: 0, no_timestamp: 0, parse_error: 0 }
    }
}

/// The outcome of a whole run.
#[derive(Debug)]
pub struct ProcessResult {
    pub total: u32,
    pub success: u32,
    pub skipped: u32,
    pub failed: u32,
    pub output_dir: String,
    pub skip_reasons: SkipReasonSummary,
    /// One message per archive that could not be processed.
    pub errors: Vec<String>,
}

/// What became of one media file.
#[derive(Debug, Clone)]
pub enum MediaOutcome {
    /// The capture date was written.
    Written,
    /// Writing failed with this message; the file was copied unchanged.
    WriteFailed(String),
    /// No usable side-car; the file was copied unchanged.
    Skipped(SkipReason),
}

/// The skipped count equals the sum of the per-reason counts.
pub open spec fn tally_consistent(r: ProcessResult) -> bool {
    r.skipped == r.skip_reasons.no_json + r.skip_reasons.no_timestamp + r.skip_reasons.parse_error
}

/// Media files counted as written, failed or skipped.
pub open spec fn processed_count(r: ProcessResult) -> int {
    r.success + r.skipped + r.failed
}

/// Media files found but not yet counted as written, failed or skipped.
pub open spec fn pending_count(r: ProcessResult) -> int {
    r.total - processed_count(r)
}

/// No more media files are counted as processed than were found.
pub open spec fn counts_within_total(r: ProcessResult) -> bool {
    processed_count(r) <= r.total
}

/// Recording `outcome` keeps every count below `u32::MAX` in range.
pub open spec fn outcome_fits(r: ProcessResult, outcome: MediaOutcome) -> bool {
    match outcome {
        MediaOutcome::Written => r.success < u32::MAX,
        MediaOutcome::WriteFailed(_) => r.failed < u32::MAX,
        MediaOutcome::Skipped(reason) => r.skipped < u32::MAX && match reason {
            SkipReason::NoJsonFound => r.skip_reasons.no_json < u32::MAX,
            SkipReason::NoTimestamp => r.skip_reasons.no_timestamp < u32::MAX,
            SkipReason::JsonParseError(_) => r.skip_reasons.parse_error < u32::MAX,
        },
    }
}

/// The log status of an outcome.
pub open spec fn outcome_status(outcome: MediaOutcome) -> Seq<char> {
    match outcome {
        MediaOutcome::Written => "success"@,
        MediaOutcome::WriteFailed(_) => "failed"@,
        MediaOutcome::Skipped(_) => "skipped"@,
    }
}

/// The log message of an outcome.
pub open spec fn outcome_message(outcome: MediaOutcome) -> Seq<char> {
    match outcome {
        MediaOutcome::Written => "メタデータを書き込みました"@,
        MediaOutcome::WriteFailed(e) => e@,
        MediaOutcome::Skipped(reason) => skip_message(reason),
    }
}

impl ProcessResult {
    /// Nothing counted yet, for a run writing into `output_dir`.
    pub fn new(output_dir: String) -> (r: Self)
        ensures
            r.total == 0 && r.success == 0 && r.skipped == 0 && r.failed == 0,
            r.skip_reasons.no_json == 0 && r.skip_reasons.no_timestamp == 0
                && r.skip_reasons.parse_error == 0,
            r.output_dir == output_dir,
            r.errors@ == Seq::<String>::empty(),
            tally_consistent(r),
            counts_within_total(r),
    {
        ProcessResult {
            total: 0,
            success: 0,
            skipped: 0,
            failed: 0,
            output_dir,
            skip_reasons: SkipReasonSummary::default(),
            errors: Vec::new(),
        }
    }

    /// Adds the media files found in an archive to the total.
    pub fn add_media_count(&mut self, count: u32)
        requires
            old(self).total + count <= u32::MAX,
        ensures
            final(self).total == old(self).total + count,
            final(self).success == old(self).success,
            final(self).skipped == old(self).skipped,
            final(self).failed == old(self).failed,
            final(self).skip_reasons == old(self).skip_reasons,
            final(self).output_dir == old(self).output_dir,
            final(self).errors == old(self).errors,
            pending_count(*final(self)) == pending_count(*old(self)) + count,
            counts_within_total(*old(self)) ==> counts_within_total(*final(self)),
    {
        self.total = self.total + count;
    }

    /// Notes that the archive at `zip_path` could not be processed.
    pub fn record_zip_error(&mut self, zip_path: &str, error: &str)
        ensures
            final(self).errors@.len() == old(self).errors@.len() + 1,
            final(self).errors@.drop_last() == old(self).errors@,
            final(self).errors@.last()@ == zip_path@ + ": "@ + error@,
            final(self).total == old(self).total,
            final(self).success == old(self).success,
            final(self).skipped == old(self).skipped,
            final(self).failed == old(self).failed,
            final(self).skip_reasons == old(self).skip_reasons,
            final(self).output_dir == old(self).output_dir,
    {
        let mut message = join(zip_path, ": ");
        message.append(error);
        self.errors.push(message);
        assert(self.errors@.drop_last() =~= old(self).errors@);
    }

    /// Counts what became of the media file `file_name` and gives its log
    /// entry.
    pub fn record_media_outcome(&mut self, file_name: String, outcome: MediaOutcome) -> (entry: LogEntry)
        requires
            outcome_fits(*old(self), outcome),
        ensures
            final(self).success == old(self).success + (if outcome is Written { 1int } else { 0 }),
            final(self).failed == old(self).failed + (if outcome is WriteFailed { 1int } else { 0 }),
            final(self).skipped == old(self).skipped + (if outcome is Skipped { 1int } else { 0 }),
            final(self).skip_reasons.no_json == old(self).skip_reasons.no_json + (
            if outcome matches MediaOutcome::Skipped(SkipReason::NoJsonFound) {
                1int
            } else {
                0
            }),
            final(self).skip_reasons.no_timestamp == old(self).skip_reasons.no_timestamp + (
            if outcome matches MediaOutcome::Skipped(SkipReason::NoTimestamp) {
                1int
            } else {
                0
            }),
            final(self).skip_reasons.parse_error == old(self).skip_reasons.parse_error + (
            if outcome matches MediaOutcome::Skipped(SkipReason::JsonParseError(_)) {
                1int
            } else {
                0
            }),
            final(self).total == old(self).total,
            final(self).output_dir == old(self).output_dir,
            final(self).errors == old(self).errors,
            entry.file == file_name,
            entry.status@ == outcome_status(outcome),
            entry.message@ == outcome_message(outcome),
            processed_count(*final(self)) == processed_count(*old(self)) + 1,
            pending_count(*final(self)) == pending_count(*old(self)) - 1,
            pending_count(*old(self)) > 0 ==> counts_within_total(*final(self)),
            tally_consistent(*old(self)) ==> tally_consistent(*final(self)),
    {
        match outcome {
            MediaOutcome::Written => {
                self.success = self.success + 1;
                LogEntry {
                    file: file_name,
                    status: String::from_str("success"),
                    message: String::from_str("メタデータを書き込みました"),
                }
            },
            MediaOutcome::WriteFailed(e) => {
                self.failed = self.failed + 1;
                LogEntry { file: file_name, status: String::from_str("failed"), message: e }
            },
            MediaOutcome::Skipped(reason) => {
                match &reason {
                    SkipReason::NoJsonFound => {
                        self.skip_reasons.no_json = self.skip_reasons.no_json + 1;
                    },
                    SkipReason::NoTimestamp => {
                        self.skip_reasons.no_timestamp = self.skip_reasons.no_timestamp + 1;
                    },
                    SkipReason::JsonParseError(_) => {
                        self.skip_reasons.parse_error = self.skip_reasons.parse_error + 1;
                    },
                }
                self.skipped = self.skipped + 1;
                LogEntry {
                    file: file_name,
                    status: String::from_str("skipped"),
                    message: reason.message(),
                }
            },
        }
    }
}

/// A progress event is due after the `current`-th of `media_count` files:
/// every tenth file and the last one.
pub open spec fn progress_is_due(current: u32, media_count: u32) -> bool {
    current % 10 == 0 || current == media_count
}

/// Whether a progress event is sent after the `current`-th (from 1) of
/// `media_count` media files of an archive.
pub fn progress_due(current: u32, media_count: u32) -> (r: bool)
    ensures
        r == progress_is_due(current, media_count),
{
    current % 10 == 0 || current == media_count
}

/// The progress event after the `current`-th of `media_count` media files,
/// the last of which is `file_name`.
pub fn progress_payload(result: &ProcessResult, current: u32, media_count: u32, file_name: String) -> (p: ProgressPayload)
    ensures
        p.current == current,
        p.total == media_count,
        p.success == result.success,
        p.skipped == result.skipped,
        p.failed == result.failed,
        p.current_file == file_name,
{
    ProgressPayload {
        current,
        total: media_count,
        success: result.success,
        skipped: result.skipped,
        failed: result.failed,
        current_file: file_name,
    }
}

/// Positions of the handled media files among files named `names`.
pub open spec fn media_positions(names: Seq<Seq<char>>) -> Seq<usize>
    decreases names.len(),
{
    if names.len() == 0 {
        seq![]
    } else if is_supported_name(names.last()) {
        media_positions(names.drop_last()).push((names.len() - 1) as usize)
    } else {
        media_positions(names.drop_last())
    }
}

/// Positions, in order, of the handled media files among files named `names`.
pub fn select_media(names: &Vec<String>) -> (r: Vec<usize>)
    ensures
        r@ == media_positions(names.deep_view()),
{
    let mut r: Vec<usize> = Vec::new();
    let mut i: usize = 0;
    assert(names.deep_view().take(0) =~= Seq::<Seq<char>>::empty());
    while i < names.len()
        invariant
            i <= names.len(),
            r@ == media_positions(names.deep_view().take(i as int)),
        decreases names.len() - i,
    {
        let ghost nv = names.deep_view();
        assert(nv.take(i + 1).drop_last() =~= nv.take(i as int));
        assert(nv.take(i + 1).last() == nv[i as int]);
        if is_supported(names[i].as_str()) {
            r.push(i);
        }
        i = i + 1;
    }
    assert(names.deep_view().take(names.len() as int) =~= names.deep_view());
    r
}

/// The name tried, at the `attempt`-th try, for a copy of `name` in a
/// directory: `name` itself, then `stem_N.ext` (or `stem_N` without an
/// extension), with `file` as the stem of a name that has none.
pub open spec fn numbered_name(name: Seq<char>, attempt: nat) -> Seq<char> {
    if attempt == 0 {
        name
    } else {
        let stem = match path_file_stem(name) {
            Some(s) => s,
            None => "file"@,
        };
        match path_extension(name) {
            Some(e) => stem + "_"@ + decimal_digits(attempt) + "."@ + e,
            None => stem + "_"@ + decimal_digits(attempt),
        }
    }
}

/// The name to try at the `attempt`-th try for a copy of `file_name` that
/// must not replace an existing file (tries go on while the name is taken).
pub fn unique_dst_name(file_name: &str, attempt: u32) -> (r: String)
    ensures
        r@ == numbered_name(file_name@, attempt as nat),
{
    if attempt == 0 {
        return String::from_str(file_name);
    }
    let stem: &str = match file_stem(file_name) {
        Some(s) => s,
        None => "file",
    };
    let mut r = join(stem, "_");
    let digits = decimal_u64(attempt as u64);
    r.append(digits.as_str());
    match extension(file_name) {
        Some(e) => {
            r.append(".");
            r.append(e);
        },
        None => {},
    }
    r
}

/// Different tries after the first give different names.
pub proof fn lemma_numbered_names_differ(name: Seq<char>, a: nat, b: nat)
    requires
        a >= 1,
        b >= 1,
        a != b,
    ensures
        numbered_name(name, a) != numbered_name(name, b),
{
    let stem = match path_file_stem(name) {
        Some(s) => s,
        None => "file"@,
    };
    let head = stem + "_"@;
    let tail = match path_extension(name) {
        Some(e) => "."@ + e,
        None => Seq::<char>::empty(),
    };
    let da = decimal_digits(a);
    let db = decimal_digits(b);
    assert(numbered_name(name, a) =~= head + da + tail);
    assert(numbered_name(name, b) =~= head + db + tail);
    if numbered_name(name, a) == numbered_name(name, b) {
        let x = head + da + tail;
        let y = head + db + tail;
        assert(da.len() == db.len());
        assert(x.subrange(head.len() as int, head.len() + da.len() as int) =~= da);
        assert(y.subrange(head.len() as int, head.len() + db.len() as int) =~= db);
        lemma_decimal_injective(a, b);
    }
}

/// The programs run on media files.
#[derive(Debug, Clone, Copy, PartialEq, Eq, Structural)]
pub enum Tool {
    ExifTool,
    Ffmpeg,
}

impl Tool {
    /// The program's name as looked up beside the application and on `PATH`.
    pub fn program_name(&self) -> (r: &'static str)
        ensures
            r@ == (match *self {
                Tool::ExifTool => "exiftool"@,
                Tool::Ffmpeg => "ffmpeg"@,
            }),
    {
        match self {
            Tool::ExifTool => "exiftool",
            Tool::Ffmpeg => "ffmpeg",
        }
    }

    /// The error of a run that cannot start because the program is missing.
    pub fn missing_message(&self) -> (r: String)
        ensures
            r@ == (match *self {
                Tool::ExifTool => "ExifToolが見つかりません。インストールされているか確認してください。"@,
                Tool::Ffmpeg => "ffmpegが見つかりません。インストールされているか確認してください。"@,
            }),
    {
        match self {
            Tool::ExifTool => String::from_str("ExifToolが見つかりません。インストールされているか確認してください。"),
            Tool::Ffmpeg => String::from_str("ffmpegが見つかりません。インストールされているか確認してください。"),
        }
    }
}

/// The directory under the output directory that a media file ends in.
#[derive(Debug, Clone, Copy, PartialEq, Eq, Structural)]
pub enum OutputDir {
    Completed,
    Failed,
}

impl OutputDir {
    /// The directory's name.
    pub fn dir_name(&self) -> (r: &'static str)
        ensures
            r@ == (match *self {
                OutputDir::Completed => "completed"@,
                OutputDir::Failed => "failed"@,
            }),
    {
        match self {
            OutputDir::Completed => "completed",
            OutputDir::Failed => "failed",
        }
    }
}

/// Where a media file ends and what is copied for it once its outcome is
/// known. A written file is already in `completed`; a file whose write
/// failed is copied unchanged into `failed` and its copy in `completed` is
/// removed; a skipped file is copied unchanged into `completed`.
pub struct Placement {
    pub dir: OutputDir,
    pub copy_unchanged: bool,
    pub remove_written_copy: bool,
}

/// Where a media file with `outcome` ends.
pub open spec fn placement_of(outcome: MediaOutcome) -> (OutputDir, bool, bool) {
    match outcome {
        MediaOutcome::Written => (OutputDir::Completed, false, false),
        MediaOutcome::WriteFailed(_) => (OutputDir::Failed, true, true),
        MediaOutcome::Skipped(_) => (OutputDir::Completed, true, false),
    }
}

/// Where a media file with `outcome` ends and what is copied for it.
pub fn placement(outcome: &MediaOutcome) -> (p: Placement)
    ensures
        (p.dir, p.copy_unchanged, p.remove_written_copy) == placement_of(*outcome),
{
    match outcome {
        MediaOutcome::Written => Placement {
            dir: OutputDir::Completed,
            copy_unchanged: false,
            remove_written_copy: false,
        },
        MediaOutcome::WriteFailed(_) => Placement {
            dir: OutputDir::Failed,
            copy_unchanged: true,
            remove_written_copy: true,
        },
        MediaOutcome::Skipped(_) => Placement {
            dir: OutputDir::Completed,
            copy_unchanged: true,
            remove_written_copy: false,
        },
    }
}

} // verus!
