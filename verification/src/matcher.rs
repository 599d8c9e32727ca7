//! Which media files are handled, and how a media file finds its JSON
//! side-car among the files of an export.

use vstd::prelude::*;
use vstd::string::*;
use crate::file_name::{extension, path_extension};
use crate::text::{
    ascii_lowered, case_twins, is_ascii_text, lemma_ascii_lowered_ascii, lemma_ascii_prefix_of_utf8_len,
    lemma_ascii_utf8_len, lemma_twins_concat, lemma_twins_key, lemma_twins_last_index,
    lemma_twins_refl, lemma_twins_subrange, lemma_twins_truncate,
    byte_len, ends_with, eq_ascii_case_insensitive, eq_ignore_ascii_case, has_suffix, join,
    last_index_of, lemma_last_index_of_concat, lemma_last_index_of_range, lemma_prefix_of_utf8_len_concat,
    lemma_utf8_len_concat, lookup_key, parse_i64, parsed_i64, prefix_at_byte,
    prefix_of_utf8_len, rfind_char, str_eq, to_lowercase, truncate_bytes, truncate_chars, utf8_len,
};

verus! {

/// A `{ "timestamp": "..." }` object of a Takeout side-car.
#[derive(Debug, Clone)]
pub struct Timestamp {
    pub timestamp: Option<String>,
}

/// The fields of a Takeout JSON side-car that this crate reads.
#[derive(Debug, Clone)]
pub struct TakeoutMeta {
    pub title: Option<String>,
    pub photo_taken_time: Option<Timestamp>,
    pub creation_time: Option<Timestamp>,
}

/// The timestamp text of an optional `Timestamp` object.
pub open spec fn timestamp_text(t: Option<Timestamp>) -> Option<Seq<char>> {
    match t {
        Some(ts) => match ts.timestamp {
            Some(s) => Some(s@),
            None => None,
        },
        None => None,
    }
}

impl TakeoutMeta {
    /// The timestamp text that the capture date is read from: the one of
    /// `photoTakenTime` when it has one, else the one of `creationTime`.
    pub open spec fn chosen_timestamp_text(&self) -> Option<Seq<char>> {
        match timestamp_text(self.photo_taken_time) {
            Some(s) => Some(s),
            None => timestamp_text(self.creation_time),
        }
    }

    /// The capture time in seconds since the Unix epoch, when the chosen
    /// timestamp text is a decimal `i64`.
    pub open spec fn spec_taken_timestamp(&self) -> Option<i64> {
        match self.chosen_timestamp_text() {
            Some(s) => parsed_i64(s),
            None => None,
        }
    }

    /// The capture time in seconds since the Unix epoch.
    pub fn taken_timestamp(&self) -> (r: Option<i64>)
        ensures
            r == self.spec_taken_timestamp(),
            match self.photo_taken_time {
                Some(t) => match t.timestamp {
                    Some(s) => r == parsed_i64(s@),
                    None => r == (match self.creation_time {
                        Some(c) => match c.timestamp {
                            Some(s) => parsed_i64(s@),
                            None => None,
                        },
                        None => None,
                    }),
                },
                None => r == (match self.creation_time {
                    Some(c) => match c.timestamp {
                        Some(s) => parsed_i64(s@),
                        None => None,
                    },
                    None => None,
                }),
            },
    {
        let photo: Option<&String> = match &self.photo_taken_time {
            Some(t) => match &t.timestamp {
                Some(s) => Some(s),
                None => None,
            },
            None => None,
        };
        let chosen: Option<&String> = match photo {
            Some(s) => Some(s),
            None => match &self.creation_time {
                Some(t) => match &t.timestamp {
                    Some(s) => Some(s),
                    None => None,
                },
                None => None,
            },
        };
        match chosen {
            Some(s) => parse_i64(s.as_str()),
            None => None,
        }
    }
}

/// The capture time comes from `photoTakenTime` whenever that object has a
/// timestamp text, whatever `creationTime` holds; `creationTime` is read
/// only when `photoTakenTime` has no timestamp text.
pub proof fn lemma_photo_taken_time_first(meta: TakeoutMeta)
    ensures
        match meta.photo_taken_time {
            Some(t) => match t.timestamp {
                Some(s) => meta.spec_taken_timestamp() == parsed_i64(s@),
                None => meta.spec_taken_timestamp() == (match meta.creation_time {
                    Some(c) => match c.timestamp {
                        Some(s) => parsed_i64(s@),
                        None => None,
                    },
                    None => None,
                }),
            },
            None => meta.spec_taken_timestamp() == (match meta.creation_time {
                Some(c) => match c.timestamp {
                    Some(s) => parsed_i64(s@),
                    None => None,
                },
                None => None,
            }),
        },
{
}

/// Two side-cars with the same `photoTakenTime` timestamp text give the
/// same capture time, however their `creationTime` differ.
pub proof fn lemma_creation_time_ignored(a: TakeoutMeta, b: TakeoutMeta, s: Seq<char>)
    requires
        timestamp_text(a.photo_taken_time) == Some(s),
        timestamp_text(b.photo_taken_time) == Some(s),
    ensures
        a.spec_taken_timestamp() == b.spec_taken_timestamp(),
        a.spec_taken_timestamp() == parsed_i64(s),
{
}

/// Why a media file is copied without new metadata.
#[derive(Debug, Clone, PartialEq)]
pub enum SkipReason {
    NoJsonFound,
    NoTimestamp,
    JsonParseError(String),
}

/// The message shown for a skip reason.
pub open spec fn skip_message(reason: SkipReason) -> Seq<char> {
    match reason {
        SkipReason::NoJsonFound => "JSONメタデータが見つかりませんでした"@,
        SkipReason::NoTimestamp => "JSONにタイムスタンプが含まれていません"@,
        SkipReason::JsonParseError(e) => "JSON解析エラー: "@ + e@,
    }
}

impl SkipReason {
    /// The message shown for this skip reason.
    pub fn message(&self) -> (r: String)
        ensures
            r@ == skip_message(*self),
    {
        match self {
            SkipReason::NoJsonFound => String::from_str("JSONメタデータが見つかりませんでした"),
            SkipReason::NoTimestamp => String::from_str("JSONにタイムスタンプが含まれていません"),
            SkipReason::JsonParseError(e) => join("JSON解析エラー: ", e.as_str()),
        }
    }
}

/// What a side-car gives once it has been read and parsed: the error text
/// of a failed read or parse becomes a parse error, and a side-car without
/// a usable timestamp is refused.
pub open spec fn checked_meta(loaded: Result<TakeoutMeta, String>) -> Result<TakeoutMeta, SkipReason> {
    match loaded {
        Err(e) => Err(SkipReason::JsonParseError(e)),
        Ok(meta) => if meta.spec_taken_timestamp() is None {
            Err(SkipReason::NoTimestamp)
        } else {
            Ok(meta)
        },
    }
}

/// Checks a side-car that was read and parsed (or the error text of a read
/// or parse that failed).
pub fn load_meta(loaded: Result<TakeoutMeta, String>) -> (r: Result<TakeoutMeta, SkipReason>)
    ensures
        r == checked_meta(loaded),
{
    match loaded {
        Err(e) => Err(SkipReason::JsonParseError(e)),
        Ok(meta) => {
            if meta.taken_timestamp().is_none() {
                Err(SkipReason::NoTimestamp)
            } else {
                Ok(meta)
            }
        },
    }
}

/// The lower-case extensions of the media files that are handled.
pub open spec fn supported_extensions() -> Seq<Seq<char>> {
    seq![
        "jpg"@, "jpeg"@, "png"@, "webp"@, "tiff"@, "tif"@, "heic"@,
        "dng"@, "cr2"@, "nef"@, "arw"@,
        "mp4"@, "mov"@, "m4v"@, "3gp"@, "mpg"@, "mpeg"@, "mkv"@,
    ]
}

/// The lower-case extensions of the media files that are handled.
pub fn supported_extension_list() -> (r: Vec<&'static str>)
    ensures
        r.deep_view() == supported_extensions(),
{
    let r = vec![
        "jpg", "jpeg", "png", "webp", "tiff", "tif", "heic",
        "dng", "cr2", "nef", "arw",
        "mp4", "mov", "m4v", "3gp", "mpg", "mpeg", "mkv",
    ];
    assert(r.deep_view() =~= supported_extensions());
    r
}

/// Whether `list` holds a string equal to `s`.
pub fn list_contains(list: &Vec<&str>, s: &str) -> (r: bool)
    ensures
        r == list.deep_view().contains(s@),
{
    let mut i: usize = 0;
    while i < list.len()
        invariant
            i <= list.len(),
            forall|k: int| 0 <= k < i ==> list.deep_view()[k] != s@,
        decreases list.len() - i,
    {
        if str_eq(list[i], s) {
            assert(list.deep_view()[i as int] == s@);
            return true;
        }
        i = i + 1;
    }
    false
}

/// Whether an already lower-cased extension is one of the handled ones.
pub fn is_supported_extension(lower_ext: &str) -> (r: bool)
    ensures
        r == supported_extensions().contains(lower_ext@),
{
    let list = supported_extension_list();
    list_contains(&list, lower_ext)
}

/// A file named `name` is a handled media file: its extension, lower-cased,
/// is one of `supported_extensions`.
pub open spec fn is_supported_name(name: Seq<char>) -> bool {
    match path_extension(name) {
        Some(e) => supported_extensions().contains(lookup_key(e)),
        None => false,
    }
}

/// Whether the file named `file_name` is a handled media file.
pub fn is_supported(file_name: &str) -> (r: bool)
    ensures
        r == is_supported_name(file_name@),
{
    match extension(file_name) {
        Some(e) => {
            let lower = to_lowercase(e);
            is_supported_extension(lower.as_str())
        },
        None => false,
    }
}

/// A file is handled exactly when its extension, lower-cased, is one of
/// jpg, jpeg, png, webp, tiff, tif, heic, dng, cr2, nef, arw (photos) or
/// mp4, mov, m4v, 3gp, mpg, mpeg, mkv (videos).
pub proof fn lemma_supported_by_extension(name: Seq<char>)
    ensures
        is_supported_name(name) <==> match path_extension(name) {
            Some(e) => {
                let l = lookup_key(e);
                ||| l == "jpg"@
                ||| l == "jpeg"@
                ||| l == "png"@
                ||| l == "webp"@
                ||| l == "tiff"@
                ||| l == "tif"@
                ||| l == "heic"@
                ||| l == "dng"@
                ||| l == "cr2"@
                ||| l == "nef"@
                ||| l == "arw"@
                ||| l == "mp4"@
                ||| l == "mov"@
                ||| l == "m4v"@
                ||| l == "3gp"@
                ||| l == "mpg"@
                ||| l == "mpeg"@
                ||| l == "mkv"@
            },
            None => false,
        },
{
    if let Some(e) = path_extension(name) {
        let l = lookup_key(e);
        let all = supported_extensions();
        if all.contains(l) {
            let i = choose|i: int| 0 <= i < all.len() && all[i] == l;
            assert(all[i] == l);
        }
        assert(all[0] == "jpg"@);
        assert(all[1] == "jpeg"@);
        assert(all[2] == "png"@);
        assert(all[3] == "webp"@);
        assert(all[4] == "tiff"@);
        assert(all[5] == "tif"@);
        assert(all[6] == "heic"@);
        assert(all[7] == "dng"@);
        assert(all[8] == "cr2"@);
        assert(all[9] == "nef"@);
        assert(all[10] == "arw"@);
        assert(all[11] == "mp4"@);
        assert(all[12] == "mov"@);
        assert(all[13] == "m4v"@);
        assert(all[14] == "3gp"@);
        assert(all[15] == "mpg"@);
        assert(all[16] == "mpeg"@);
        assert(all[17] == "mkv"@);
    }
}

/// Side-car files of an export, found by lower-cased file name. Each name
/// maps to the position of its file in the list the index was built from.
pub struct JsonIndex {
    entries: Vec<(String, usize)>,
}

impl JsonIndex {
    /// The lower-cased names held, in the order they were first inserted.
    pub closed spec fn keys(&self) -> Seq<Seq<char>> {
        self.entries@.map_values(|e: (String, usize)| e.0@)
    }

    /// No name is held twice.
    #[verifier::type_invariant]
    closed spec fn distinct_keys(&self) -> bool {
        self.keys().no_duplicates()
    }

    closed spec fn slot_of(&self, key: Seq<char>) -> int {
        choose|i: int| 0 <= i < self.entries@.len() && self.entries@[i].0@ == key
    }

    /// The index as a map from lower-cased name to file position.
    pub closed spec fn as_map(&self) -> Map<Seq<char>, usize> {
        Map::new(
            |k: Seq<char>| exists|i: int| 0 <= i < self.entries@.len() && self.entries@[i].0@ == k,
            |k: Seq<char>| self.entries@[self.slot_of(k)].1,
        )
    }

    proof fn lemma_slot(&self, i: int)
        requires
            self.distinct_keys(),
            0 <= i < self.entries@.len(),
        ensures
            self.slot_of(self.entries@[i].0@) == i,
    {
        let k = self.entries@[i].0@;
        let j = self.slot_of(k);
        assert(0 <= j < self.entries@.len() && self.entries@[j].0@ == k);
        assert(self.keys()[i] == k);
        assert(self.keys()[j] == k);
    }

    /// An empty index.
    pub fn new() -> (r: Self)
        ensures
            r@ == Map::<Seq<char>, usize>::empty(),
    {
        let r = JsonIndex { entries: Vec::new() };
        assert(r@ =~= Map::<Seq<char>, usize>::empty());
        r
    }

    /// Number of names held.
    pub fn len(&self) -> (n: usize)
        ensures
            n == self@.len(),
    {
        proof {
            use_type_invariant(self);
        }
        let n = self.entries.len();
        proof {
            assert forall|q: Seq<char>| #[trigger] self.keys().to_set().contains(q) <==> self@.dom().contains(q) by {
                if self.keys().contains(q) {
                    let j = choose|j: int| 0 <= j < self.keys().len() && self.keys()[j] == q;
                    assert(self.entries@[j].0@ == q);
                }
                if self@.dom().contains(q) {
                    let j = choose|j: int| 0 <= j < self.entries@.len() && self.entries@[j].0@ == q;
                    assert(self.keys()[j] == q);
                }
            }
            assert(self@.dom() =~= self.keys().to_set());
            self.keys().unique_seq_to_set();
        }
        n
    }

    fn find_slot(&self, key: &str) -> (r: Option<usize>)
        ensures
            r matches Some(i) ==> i < self.entries@.len() && self.entries@[i as int].0@ == key@,
            r is None ==> forall|k: int| 0 <= k < self.entries@.len() ==> self.entries@[k].0@ != key@,
    {
        let mut i: usize = 0;
        while i < self.entries.len()
            invariant
                i <= self.entries@.len(),
                forall|k: int| 0 <= k < i ==> self.entries@[k].0@ != key@,
            decreases self.entries@.len() - i,
        {
            if str_eq(self.entries[i].0.as_str(), key) {
                return Some(i);
            }
            i = i + 1;
        }
        None
    }

    /// The file position held for `key`.
    pub fn get(&self, key: &str) -> (r: Option<usize>)
        ensures
            r == (if self@.contains_key(key@) {
                Some(self@[key@])
            } else {
                None
            }),
    {
        proof {
            use_type_invariant(self);
        }
        match self.find_slot(key) {
            Some(i) => {
                proof {
                    self.lemma_slot(i as int);
                }
                Some(self.entries[i].1)
            },
            None => None,
        }
    }

    /// Holds `pos` for `key`, replacing what was held for it.
    pub fn insert(&mut self, key: String, pos: usize)
        ensures
            final(self)@ == old(self)@.insert(key@, pos),
    {
        proof {
            use_type_invariant(&*self);
        }
        let ghost old_index = *self;
        let ghost k = key@;
        let found = self.find_slot(key.as_str());
        let mut entries: Vec<(String, usize)> = Vec::new();
        std::mem::swap(&mut entries, &mut self.entries);
        match found {
            Some(i) => {
                entries.set(i, (key, pos));
            },
            None => {
                entries.push((key, pos));
            },
        }
        let ghost new_keys = entries@.map_values(|e: (String, usize)| e.0@);
        let ghost slot: int = match found {
            Some(i) => i as int,
            None => old_index.entries@.len() as int,
        };
        proof {
            match found {
                Some(i) => {
                    assert(new_keys =~= old_index.keys());
                },
                None => {
                    assert(new_keys =~= old_index.keys().push(k));
                    assert(!old_index.keys().contains(k));
                },
            }
        }
        self.entries = entries;
        proof {
            use_type_invariant(&*self);
            assert(self.entries@[slot].0@ == k && self.entries@[slot].1 == pos);
            assert(forall|j: int| 0 <= j < self.entries@.len() && j != slot ==> self.entries@[j] == old_index.entries@[j]);
            assert forall|q: Seq<char>| #[trigger] self@.contains_key(q) == old_index@.insert(k, pos).contains_key(q) by {
                if self@.contains_key(q) {
                    let j = choose|j: int| 0 <= j < self.entries@.len() && self.entries@[j].0@ == q;
                    if q != k {
                        assert(old_index.entries@[j].0@ == q);
                    }
                }
                if old_index@.contains_key(q) {
                    let j = choose|j: int| 0 <= j < old_index.entries@.len() && old_index.entries@[j].0@ == q;
                    if q != k {
                        assert(self.entries@[j].0@ == q);
                    }
                }
            }
            assert forall|q: Seq<char>| #[trigger] self@.contains_key(q) implies self@[q] == old_index@.insert(k, pos)[q] by {
                if q == k {
                    self.lemma_slot(slot);
                } else {
                    let j = choose|j: int| 0 <= j < self.entries@.len() && self.entries@[j].0@ == q;
                    self.lemma_slot(j);
                    assert(old_index.entries@[j].0@ == q);
                    old_index.lemma_slot(j);
                }
            }
            assert(self@ =~= old_index@.insert(k, pos));
        }
    }
}

impl View for JsonIndex {
    type V = Map<Seq<char>, usize>;

    open spec fn view(&self) -> Map<Seq<char>, usize> {
        self.as_map()
    }
}

/// The file named `name` is a JSON side-car: its extension is `json` in any
/// ASCII case.
pub open spec fn is_json_name(name: Seq<char>) -> bool {
    match path_extension(name) {
        Some(e) => eq_ascii_case_insensitive(e, "json"@),
        None => false,
    }
}

/// The index of the side-cars among files named `names` (`None` for a name
/// that is not valid Unicode): each side-car's lower-cased name maps to its
/// position, and of two side-cars with the same lower-cased name the later
/// one is kept.
pub open spec fn json_index_of(names: Seq<Option<Seq<char>>>) -> Map<Seq<char>, usize>
    decreases names.len(),
{
    if names.len() == 0 {
        Map::empty()
    } else {
        let m = json_index_of(names.drop_last());
        match names.last() {
            Some(n) => if is_json_name(n) {
                m.insert(lookup_key(n), (names.len() - 1) as usize)
            } else {
                m
            },
            None => m,
        }
    }
}

/// Whether the file named `name` is a JSON side-car.
pub fn is_json_file(name: &str) -> (r: bool)
    ensures
        r == is_json_name(name@),
{
    match extension(name) {
        Some(e) => eq_ignore_ascii_case(e, "json"),
        None => false,
    }
}

/// Indexes the side-cars among the files of an export, given the name of
/// each file (`None` where the name is not valid Unicode).
pub fn build_json_index(file_names: &Vec<Option<String>>) -> (r: JsonIndex)
    ensures
        r@ == json_index_of(file_names.deep_view()),
{
    let mut index = JsonIndex::new();
    let mut i: usize = 0;
    assert(file_names.deep_view().take(0) =~= Seq::<Option<Seq<char>>>::empty());
    while i < file_names.len()
        invariant
            i <= file_names.len(),
            index@ == json_index_of(file_names.deep_view().take(i as int)),
        decreases file_names.len() - i,
    {
        let ghost names = file_names.deep_view();
        assert(names.take(i + 1).drop_last() =~= names.take(i as int));
        assert(names.take(i + 1).last() == names[i as int]);
        match &file_names[i] {
            Some(n) => {
                if is_json_file(n.as_str()) {
                    let key = to_lowercase(n.as_str());
                    index.insert(key, i);
                }
            },
            None => {},
        }
        i = i + 1;
    }
    assert(file_names.deep_view().take(file_names.len() as int) =~= file_names.deep_view());
    index
}

/// The side-car name tried for a media file named `s`.
pub open spec fn json_file_name(s: Seq<char>) -> Seq<char> {
    s + ".json"@
}

/// Byte lengths at which Takeout cuts long side-car names.
pub open spec fn truncation_limits() -> Seq<int> {
    seq![46, 47, 51]
}

/// The side-car name for `s` cut to `limit` bytes, when the cut changes `s`.
pub open spec fn truncation_candidate(s: Seq<char>, limit: int) -> Seq<Seq<char>> {
    let t = truncate_chars(s, limit);
    if t == s {
        seq![]
    } else {
        seq![json_file_name(t)]
    }
}

/// The side-car names for `s` cut to each of `limits`, in order.
pub open spec fn truncation_candidates(s: Seq<char>, limits: Seq<int>) -> Seq<Seq<char>>
    decreases limits.len(),
{
    if limits.len() == 0 {
        seq![]
    } else {
        truncation_candidates(s, limits.drop_last()) + truncation_candidate(s, limits.last())
    }
}

fn push_truncation(out: &mut Vec<String>, s: &str, limit: usize)
    ensures
        final(out).deep_view() == old(out).deep_view() + truncation_candidate(s@, limit as int),
{
    let t = truncate_bytes(s, limit);
    if !str_eq(t, s) {
        let c = join(t, ".json");
        out.push(c);
        assert(out.deep_view() =~= old(out).deep_view() + truncation_candidate(s@, limit as int));
    } else {
        assert(out.deep_view() =~= old(out).deep_view() + truncation_candidate(s@, limit as int));
    }
}

fn push_truncations(out: &mut Vec<String>, s: &str)
    ensures
        final(out).deep_view() == old(out).deep_view() + truncation_candidates(
            s@,
            truncation_limits(),
        ),
{
    let ghost start = out.deep_view();
    push_truncation(out, s, 46);
    push_truncation(out, s, 47);
    push_truncation(out, s, 51);
    proof {
        let e = Seq::<int>::empty();
        let a = e.push(46);
        let b = a.push(47);
        let l = b.push(51);
        assert(l =~= truncation_limits());
        assert(a.drop_last() =~= e);
        assert(b.drop_last() =~= a);
        assert(l.drop_last() =~= b);
        assert(truncation_candidates(s@, e) =~= Seq::<Seq<char>>::empty());
        assert(truncation_candidates(s@, a) =~= truncation_candidate(s@, 46));
        assert(truncation_candidates(s@, b) =~= truncation_candidate(s@, 46) + truncation_candidate(s@, 47));
        assert(out.deep_view() =~= start + truncation_candidates(s@, l));
    }
}

/// Suffixes that editors add to the stem of a file they saved, in the order
/// they are tried.
pub open spec fn edited_suffixes() -> Seq<Seq<char>> {
    seq![
        "-edited"@, "-bearbeitet"@, "-modifié"@, "-modifie"@,
        "-editado"@, "-modificato"@, "(1)"@, "(2)"@, "(3)"@,
    ]
}

/// Suffixes that editors add to the stem of a file they saved.
pub fn edited_suffix_list() -> (r: Vec<&'static str>)
    ensures
        r.deep_view() == edited_suffixes(),
{
    let r = vec![
        "-edited", "-bearbeitet", "-modifié", "-modifie",
        "-editado", "-modificato", "(1)", "(2)", "(3)",
    ];
    assert(r.deep_view() =~= edited_suffixes());
    r
}

/// `name` split at its last `.` into the part before it and the part after
/// it; the whole name and an empty part when it has no `.`.
pub open spec fn stem_and_ext(name: Seq<char>) -> (Seq<char>, Seq<char>) {
    match last_index_of(name, '.') {
        Some(p) => (name.take(p), name.skip(p + 1)),
        None => (name, seq![]),
    }
}

/// Splits `name` at its last `.`.
pub fn split_stem_ext(name: &str) -> (r: (&str, &str))
    ensures
        (r.0@, r.1@) == stem_and_ext(name@),
{
    let n = name.unicode_len();
    match rfind_char(name, '.') {
        Some(p) => {
            proof {
                lemma_last_index_of_range(name@, '.');
            }
            let stem = name.substring_char(0, p);
            let ext = name.substring_char(p + 1, n);
            assert(stem@ =~= name@.take(p as int));
            assert(ext@ =~= name@.skip(p + 1));
            (stem, ext)
        },
        None => {
            let stem = name.substring_char(0, n);
            let ext = name.substring_char(n, n);
            assert(stem@ =~= name@);
            assert(ext@ =~= Seq::<char>::empty());
            (stem, ext)
        },
    }
}

/// The name of the unedited file behind an edited one: the stem without the edit
/// suffix, followed by the extension when there is one.
pub open spec fn restored_name(base: Seq<char>, ext: Seq<char>) -> Seq<char> {
    if ext.len() == 0 {
        base
    } else {
        base + "."@ + ext
    }
}

/// The part of `stem` before `suffix` when `stem`, lower-cased, ends with
/// `suffix`: the prefix of `stem` whose UTF-8 length is that of `stem` less
/// that of `suffix`.
pub open spec fn stem_base(stem: Seq<char>, suffix: Seq<char>) -> Option<Seq<char>> {
    prefix_of_utf8_len(stem, utf8_len(stem) - utf8_len(suffix))
}

/// When the lower-cased stem ends with `suffix`, the stem can be cut where
/// the suffix starts (its length less that of the suffix, in bytes, falls on
/// a character boundary of the stem).
pub open spec fn suffix_cut_allowed(stem: Seq<char>, suffix: Seq<char>) -> bool {
    has_suffix(lookup_key(stem), suffix) ==> stem_base(stem, suffix) is Some
}

/// Every edit suffix that the lower-cased stem of `name` ends with can be cut
/// off the stem.
pub open spec fn edited_cuts_valid(name: Seq<char>) -> bool {
    forall|i: int|
        0 <= i < edited_suffixes().len() ==> suffix_cut_allowed(
            stem_and_ext(name).0,
            #[trigger] edited_suffixes()[i],
        )
}

/// The side-car names of the unedited file behind an edited one, for one suffix.
pub open spec fn edited_candidate(stem: Seq<char>, ext: Seq<char>, suffix: Seq<char>) -> Seq<Seq<char>> {
    if has_suffix(lookup_key(stem), suffix) {
        match stem_base(stem, suffix) {
            Some(base) => {
                let unedited = restored_name(base, ext);
                seq![json_file_name(unedited)] + truncation_candidates(unedited, truncation_limits())
            },
            None => seq![],
        }
    } else {
        seq![]
    }
}

/// The side-car names of the unedited file behind an edited one, for each suffix.
pub open spec fn edited_candidates(stem: Seq<char>, ext: Seq<char>, suffixes: Seq<Seq<char>>) -> Seq<Seq<char>>
    decreases suffixes.len(),
{
    if suffixes.len() == 0 {
        seq![]
    } else {
        edited_candidates(stem, ext, suffixes.drop_last()) + edited_candidate(stem, ext, suffixes.last())
    }
}

/// Every side-car name tried for a media file named `name`, in order and
/// with repeats: the exact name, its truncations, then the names of the
/// unedited file when the name looks edited.
pub open spec fn raw_json_candidates(name: Seq<char>) -> Seq<Seq<char>> {
    let (stem, ext) = stem_and_ext(name);
    seq![json_file_name(name)] + truncation_candidates(name, truncation_limits()) + edited_candidates(
        stem,
        ext,
        edited_suffixes(),
    )
}

/// `s` with each element after its first occurrence removed.
pub open spec fn without_repeats(s: Seq<Seq<char>>) -> Seq<Seq<char>>
    decreases s.len(),
{
    if s.len() == 0 {
        seq![]
    } else {
        let d = without_repeats(s.drop_last());
        if d.contains(s.last()) {
            d
        } else {
            d.push(s.last())
        }
    }
}

/// The side-car names tried for a media file named `name`, in the order
/// they are tried.
pub open spec fn json_candidates(name: Seq<char>) -> Seq<Seq<char>> {
    without_repeats(raw_json_candidates(name))
}

proof fn lemma_prefix_of_utf8_len_negative(s: Seq<char>, n: int)
    requires
        n < 0,
    ensures
        prefix_of_utf8_len(s, n) is None,
    decreases s.len(),
{
    if s.len() > 0 {
        lemma_prefix_of_utf8_len_negative(s.drop_last(), n);
    }
}

fn stem_base_of<'a>(stem: &'a str, suffix: &str) -> (r: Option<&'a str>)
    ensures
        r matches Some(b) ==> stem_base(stem@, suffix@) == Some(b@),
        r is None ==> stem_base(stem@, suffix@) is None,
{
    let sb = byte_len(stem);
    let xb = byte_len(suffix);
    if sb < xb {
        proof {
            lemma_prefix_of_utf8_len_negative(stem@, utf8_len(stem@) - utf8_len(suffix@));
        }
        return None;
    }
    prefix_at_byte(stem, sb - xb)
}

fn push_edited(out: &mut Vec<String>, stem: &str, ext: &str, suffix: &str) -> (ok: bool)
    ensures
        ok == suffix_cut_allowed(stem@, suffix@),
        ok ==> final(out).deep_view() == old(out).deep_view() + edited_candidate(stem@, ext@, suffix@),
{
    let lower = to_lowercase(stem);
    if !ends_with(lower.as_str(), suffix) {
        assert(out.deep_view() =~= old(out).deep_view() + edited_candidate(stem@, ext@, suffix@));
        return true;
    }
    match stem_base_of(stem, suffix) {
        None => false,
        Some(base) => {
            let unedited = if ext.unicode_len() == 0 {
                String::from_str(base)
            } else {
                let with_dot = join(base, ".");
                join(with_dot.as_str(), ext)
            };
            assert(unedited@ =~= restored_name(base@, ext@));
            let ghost start = out.deep_view();
            out.push(join(unedited.as_str(), ".json"));
            assert(out.deep_view() =~= start + seq![json_file_name(unedited@)]);
            push_truncations(out, unedited.as_str());
            assert(out.deep_view() =~= start + edited_candidate(stem@, ext@, suffix@));
            true
        },
    }
}

/// Every side-car name tried for `media_name`, with repeats; `None` where an
/// edit suffix cannot be cut off the stem.
fn collect_raw_candidates(media_name: &str) -> (r: Option<Vec<String>>)
    ensures
        r is Some <==> edited_cuts_valid(media_name@),
        r matches Some(v) ==> v.deep_view() == raw_json_candidates(media_name@),
{
    let mut out: Vec<String> = Vec::new();
    out.push(join(media_name, ".json"));
    push_truncations(&mut out, media_name);
    let (stem, ext) = split_stem_ext(media_name);
    let suffixes = edited_suffix_list();
    let ghost head = out.deep_view();
    assert(head =~= seq![json_file_name(media_name@)] + truncation_candidates(media_name@, truncation_limits()));
    let mut i: usize = 0;
    assert(suffixes.deep_view().take(0) =~= Seq::<Seq<char>>::empty());
    assert(out.deep_view() =~= head + edited_candidates(stem@, ext@, suffixes.deep_view().take(0)));
    while i < suffixes.len()
        invariant
            i <= suffixes.len(),
            suffixes.deep_view() == edited_suffixes(),
            (stem@, ext@) == stem_and_ext(media_name@),
            forall|j: int| 0 <= j < i ==> suffix_cut_allowed(stem@, #[trigger] edited_suffixes()[j]),
            out.deep_view() == head + edited_candidates(stem@, ext@, suffixes.deep_view().take(i as int)),
            head == seq![json_file_name(media_name@)] + truncation_candidates(media_name@, truncation_limits()),
        decreases suffixes.len() - i,
    {
        let ghost before = out.deep_view();
        let ok = push_edited(&mut out, stem, ext, suffixes[i]);
        if !ok {
            assert(!suffix_cut_allowed(stem@, edited_suffixes()[i as int]));
            return None;
        }
        let ghost sv = suffixes.deep_view();
        assert(sv.take(i + 1).drop_last() =~= sv.take(i as int));
        assert(sv.take(i + 1).last() == sv[i as int]);
        assert(out.deep_view() =~= head + edited_candidates(stem@, ext@, sv.take(i + 1)));
        i = i + 1;
    }
    assert(suffixes.deep_view().take(suffixes.len() as int) =~= edited_suffixes());
    Some(out)
}

/// Whether the strings `list` hold one equal to `s`.
pub fn strings_contain(list: &Vec<String>, s: &str) -> (r: bool)
    ensures
        r == list.deep_view().contains(s@),
{
    let mut i: usize = 0;
    while i < list.len()
        invariant
            i <= list.len(),
            forall|k: int| 0 <= k < i ==> list.deep_view()[k] != s@,
        decreases list.len() - i,
    {
        if str_eq(list[i].as_str(), s) {
            assert(list.deep_view()[i as int] == s@);
            return true;
        }
        i = i + 1;
    }
    false
}

/// `names` without repeats, each kept where it first occurs.
pub fn remove_repeats(names: Vec<String>) -> (r: Vec<String>)
    ensures
        r.deep_view() == without_repeats(names.deep_view()),
{
    let mut out: Vec<String> = Vec::new();
    let mut i: usize = 0;
    assert(names.deep_view().take(0) =~= Seq::<Seq<char>>::empty());
    while i < names.len()
        invariant
            i <= names.len(),
            out.deep_view() == without_repeats(names.deep_view().take(i as int)),
        decreases names.len() - i,
    {
        let ghost nv = names.deep_view();
        assert(nv.take(i + 1).drop_last() =~= nv.take(i as int));
        assert(nv.take(i + 1).last() == nv[i as int]);
        if !strings_contain(&out, names[i].as_str()) {
            let ghost before = out.deep_view();
            out.push(names[i].clone());
            assert(out.deep_view() =~= before.push(nv[i as int]));
        }
        i = i + 1;
    }
    assert(names.deep_view().take(names.len() as int) =~= names.deep_view());
    out
}

/// Whether every edit suffix of the name can be cut off its stem, the
/// condition under which the candidate names are defined.
pub fn edited_cuts_hold(media_name: &str) -> (r: bool)
    ensures
        r == edited_cuts_valid(media_name@),
{
    let (stem, _ext) = split_stem_ext(media_name);
    let suffixes = edited_suffix_list();
    let mut i: usize = 0;
    while i < suffixes.len()
        invariant
            i <= suffixes.len(),
            suffixes.deep_view() == edited_suffixes(),
            stem@ == stem_and_ext(media_name@).0,
            forall|j: int| 0 <= j < i ==> suffix_cut_allowed(stem@, #[trigger] edited_suffixes()[j]),
        decreases suffixes.len() - i,
    {
        let suffix = suffixes[i];
        assert(suffix@ == edited_suffixes()[i as int]);
        let lower = to_lowercase(stem);
        if ends_with(lower.as_str(), suffix) {
            if stem_base_of(stem, suffix).is_none() {
                return false;
            }
        }
        i = i + 1;
    }
    true
}

/// The side-car names tried for a media file named `media_name`, in the
/// order they are tried, without repeats.
pub fn build_json_candidates(media_name: &str) -> (r: Vec<String>)
    requires
        edited_cuts_valid(media_name@),
    ensures
        r.deep_view() == json_candidates(media_name@),
{
    match collect_raw_candidates(media_name) {
        Some(raw) => remove_repeats(raw),
        None => Vec::new(),
    }
}

/// The side-car names tried for a media file named `media_name`; `None`
/// where an edit suffix cannot be cut off the stem.
pub fn checked_json_candidates(media_name: &str) -> (r: Option<Vec<String>>)
    ensures
        r is Some <==> edited_cuts_valid(media_name@),
        r matches Some(v) ==> v.deep_view() == json_candidates(media_name@),
{
    if edited_cuts_hold(media_name) {
        Some(build_json_candidates(media_name))
    } else {
        None
    }
}

/// The file position of the first of `candidates` whose lower-cased name
/// is in `index`.
pub open spec fn first_indexed(candidates: Seq<Seq<char>>, index: Map<Seq<char>, usize>) -> Option<usize>
    decreases candidates.len(),
{
    if candidates.len() == 0 {
        None
    } else if index.contains_key(lookup_key(candidates[0])) {
        Some(index[lookup_key(candidates[0])])
    } else {
        first_indexed(candidates.drop_first(), index)
    }
}

/// Where the side-car of a media file is found: the position of the first
/// tried name that the index holds, or `NoJsonFound` when the file name is
/// not valid Unicode or no tried name is held.
pub open spec fn meta_location(media_name: Option<Seq<char>>, index: Map<Seq<char>, usize>) -> Result<usize, SkipReason> {
    match media_name {
        None => Err(SkipReason::NoJsonFound),
        Some(n) => match first_indexed(json_candidates(n), index) {
            Some(p) => Ok(p),
            None => Err(SkipReason::NoJsonFound),
        },
    }
}

/// The position of the first of `candidates` whose lower-cased name the
/// index holds.
pub fn first_in_index(candidates: &Vec<String>, json_index: &JsonIndex) -> (r: Option<usize>)
    ensures
        r == first_indexed(candidates.deep_view(), json_index@),
{
    let mut i: usize = 0;
    assert(candidates.deep_view().skip(0) =~= candidates.deep_view());
    while i < candidates.len()
        invariant
            i <= candidates.len(),
            first_indexed(candidates.deep_view().skip(i as int), json_index@) == first_indexed(
                candidates.deep_view(),
                json_index@,
            ),
        decreases candidates.len() - i,
    {
        let ghost cv = candidates.deep_view();
        assert(cv.skip(i as int).drop_first() =~= cv.skip(i + 1));
        assert(cv.skip(i as int)[0] == cv[i as int]);
        let key = to_lowercase(candidates[i].as_str());
        match json_index.get(key.as_str()) {
            Some(p) => {
                return Some(p);
            },
            None => {},
        }
        i = i + 1;
    }
    assert(candidates.deep_view().skip(i as int) =~= Seq::<Seq<char>>::empty());
    None
}

/// Finds the side-car of a media file named `media_name` (`None` when its
/// name is not valid Unicode): the position the index holds for the first
/// name tried, or `NoJsonFound`.
pub fn find_meta_for_media(media_name: Option<&str>, json_index: &JsonIndex) -> (r: Result<usize, SkipReason>)
    requires
        match media_name {
            Some(n) => edited_cuts_valid(n@),
            None => true,
        },
    ensures
        r == meta_location(
            match media_name {
                Some(n) => Some(n@),
                None => None,
            },
            json_index@,
        ),
{
    match media_name {
        None => Err(SkipReason::NoJsonFound),
        Some(name) => {
            let candidates = build_json_candidates(name);
            match first_in_index(&candidates, json_index) {
                Some(p) => Ok(p),
                None => Err(SkipReason::NoJsonFound),
            }
        },
    }
}

/// As `find_meta_for_media`, giving `None` where an edit suffix cannot be
/// cut off the stem of the name.
pub fn try_find_meta_for_media(media_name: Option<&str>, json_index: &JsonIndex) -> (r: Option<Result<usize, SkipReason>>)
    ensures
        r is None <==> (media_name matches Some(n) && !edited_cuts_valid(n@)),
        r matches Some(found) ==> found == meta_location(
            match media_name {
                Some(n) => Some(n@),
                None => None,
            },
            json_index@,
        ),
{
    match media_name {
        Some(name) => {
            if !edited_cuts_hold(name) {
                return None;
            }
        },
        None => {},
    }
    Some(find_meta_for_media(media_name, json_index))
}

proof fn lemma_first_indexed_push(s: Seq<Seq<char>>, x: Seq<char>, m: Map<Seq<char>, usize>)
    ensures
        first_indexed(s.push(x), m) == (match first_indexed(s, m) {
            Some(p) => Some(p),
            None => if m.contains_key(lookup_key(x)) {
                Some(m[lookup_key(x)])
            } else {
                None
            },
        }),
    decreases s.len(),
{
    if s.len() == 0 {
        assert(s.push(x).drop_first() =~= Seq::<Seq<char>>::empty());
    } else {
        assert(s.push(x).drop_first() =~= s.drop_first().push(x));
        lemma_first_indexed_push(s.drop_first(), x, m);
    }
}

proof fn lemma_first_indexed_some(s: Seq<Seq<char>>, x: Seq<char>, m: Map<Seq<char>, usize>)
    requires
        s.contains(x),
        m.contains_key(lookup_key(x)),
    ensures
        first_indexed(s, m) is Some,
    decreases s.len(),
{
    if s[0] != x {
        let i = choose|i: int| 0 <= i < s.len() && s[i] == x;
        assert(s.drop_first()[i - 1] == x);
        lemma_first_indexed_some(s.drop_first(), x, m);
    }
}

/// Removing repeats keeps exactly the elements of `s`.
pub proof fn lemma_without_repeats_members(s: Seq<Seq<char>>, y: Seq<char>)
    ensures
        without_repeats(s).contains(y) <==> s.contains(y),
    decreases s.len(),
{
    if s.len() > 0 {
        let t = s.drop_last();
        lemma_without_repeats_members(t, y);
        assert(s =~= t.push(s.last()));
        if t.contains(y) {
            let i = choose|i: int| 0 <= i < t.len() && t[i] == y;
            assert(s[i] == y);
        }
        if s.contains(y) && y != s.last() {
            let i = choose|i: int| 0 <= i < s.len() && s[i] == y;
            assert(t[i] == y);
        }
        let d = without_repeats(t);
        if !d.contains(s.last()) {
            assert(d.push(s.last())[d.len() as int] == s.last());
            if d.contains(y) {
                let i = choose|i: int| 0 <= i < d.len() && d[i] == y;
                assert(d.push(s.last())[i] == y);
            }
            if d.push(s.last()).contains(y) && y != s.last() {
                let i = choose|i: int| 0 <= i < d.len() + 1 && d.push(s.last())[i] == y;
                assert(d[i] == y);
            }
        }
    }
}

/// Removing repeats leaves no element twice.
pub proof fn lemma_without_repeats_distinct(s: Seq<Seq<char>>)
    ensures
        without_repeats(s).no_duplicates(),
    decreases s.len(),
{
    if s.len() > 0 {
        lemma_without_repeats_distinct(s.drop_last());
    }
}

/// Removing repeats keeps the first element first.
pub proof fn lemma_without_repeats_first(s: Seq<Seq<char>>)
    requires
        s.len() > 0,
    ensures
        without_repeats(s).len() > 0,
        without_repeats(s)[0] == s[0],
    decreases s.len(),
{
    let d = without_repeats(s.drop_last());
    if s.len() > 1 {
        lemma_without_repeats_first(s.drop_last());
        assert(s.drop_last()[0] == s[0]);
        assert(d.push(s.last())[0] == d[0]);
    } else {
        assert(s.drop_last() =~= Seq::<Seq<char>>::empty());
        assert(d =~= Seq::<Seq<char>>::empty());
        assert(!d.contains(s.last()));
        assert(d.push(s.last())[0] == s.last());
    }
}

/// Looking the candidates up with repeats removed finds the same side-car as
/// looking them up in full: removing repeats changes no lookup.
pub proof fn lemma_without_repeats_first_indexed(s: Seq<Seq<char>>, m: Map<Seq<char>, usize>)
    ensures
        first_indexed(without_repeats(s), m) == first_indexed(s, m),
    decreases s.len(),
{
    if s.len() > 0 {
        let t = s.drop_last();
        let x = s.last();
        let d = without_repeats(t);
        assert(s =~= t.push(x));
        lemma_without_repeats_first_indexed(t, m);
        lemma_first_indexed_push(t, x, m);
        if d.contains(x) {
            lemma_without_repeats_members(t, x);
            if first_indexed(t, m) is None && m.contains_key(lookup_key(x)) {
                lemma_first_indexed_some(t, x, m);
            }
        } else {
            lemma_first_indexed_push(d, x, m);
        }
    }
}

/// The first name tried for a media file is its own name with `.json`
/// appended, and no name is tried twice.
pub proof fn lemma_exact_name_first(name: Seq<char>)
    ensures
        json_candidates(name).len() > 0,
        json_candidates(name)[0] == json_file_name(name),
        json_candidates(name).no_duplicates(),
{
    lemma_without_repeats_first(raw_json_candidates(name));
    lemma_without_repeats_distinct(raw_json_candidates(name));
}

/// Removing repeats from the tried names does not change which side-car a
/// media file finds.
pub proof fn lemma_lookup_ignores_repeats(name: Seq<char>, index: Map<Seq<char>, usize>)
    ensures
        first_indexed(json_candidates(name), index) == first_indexed(raw_json_candidates(name), index),
{
    lemma_without_repeats_first_indexed(raw_json_candidates(name), index);
}

/// The file at position `i` of `names` is a side-car whose lower-cased name
/// is `key`.
pub open spec fn is_json_at(names: Seq<Option<Seq<char>>>, i: int, key: Seq<char>) -> bool {
    0 <= i < names.len() && match names[i] {
        Some(n) => is_json_name(n) && lookup_key(n) == key,
        None => false,
    }
}

/// A name that some side-car has (lower-cased) is in the index, with the
/// position of the last such side-car.
pub proof fn lemma_json_index_last_wins(names: Seq<Option<Seq<char>>>, key: Seq<char>, i: int)
    requires
        names.len() <= usize::MAX,
        is_json_at(names, i, key),
        forall|j: int| i < j < names.len() ==> !is_json_at(names, j, key),
    ensures
        json_index_of(names).contains_key(key),
        json_index_of(names)[key] == i,
    decreases names.len(),
{
    let t = names.drop_last();
    if i < names.len() - 1 {
        assert forall|j: int| i < j < t.len() implies !is_json_at(t, j, key) by {
            assert(!is_json_at(names, j, key));
        }
        assert(is_json_at(t, i, key));
        lemma_json_index_last_wins(t, key, i);
        assert(!is_json_at(names, names.len() - 1, key));
    }
}

/// A name that no side-car has (lower-cased) is not in the index.
pub proof fn lemma_json_index_only_side_cars(names: Seq<Option<Seq<char>>>, key: Seq<char>)
    requires
        forall|j: int| 0 <= j < names.len() ==> !is_json_at(names, j, key),
    ensures
        !json_index_of(names).contains_key(key),
    decreases names.len(),
{
    if names.len() > 0 {
        let t = names.drop_last();
        assert forall|j: int| 0 <= j < t.len() implies !is_json_at(t, j, key) by {
            assert(!is_json_at(names, j, key));
        }
        lemma_json_index_only_side_cars(t, key);
        assert(!is_json_at(names, names.len() - 1, key));
    }
}

/// What is written into the index is read back, and nothing else changes.
pub proof fn lemma_index_read_after_write(index: JsonIndex, key: Seq<char>, pos: usize, other: Seq<char>)
    requires
        other != key,
    ensures
        index@.insert(key, pos).contains_key(key),
        index@.insert(key, pos)[key] == pos,
        index@.insert(key, pos).contains_key(other) == index@.contains_key(other),
        index@.contains_key(other) ==> index@.insert(key, pos)[other] == index@[other],
{
}

/// Two lists of names of one length whose names at each place are twins.
pub open spec fn twin_lists(s: Seq<Seq<char>>, t: Seq<Seq<char>>) -> bool {
    s.len() == t.len() && forall|i: int| 0 <= i < s.len() ==> case_twins(#[trigger] s[i], t[i])
}

proof fn lemma_twin_lists_concat(s1: Seq<Seq<char>>, t1: Seq<Seq<char>>, s2: Seq<Seq<char>>, t2: Seq<Seq<char>>)
    requires
        twin_lists(s1, t1),
        twin_lists(s2, t2),
    ensures
        twin_lists(s1 + s2, t1 + t2),
{
    assert forall|i: int| 0 <= i < (s1 + s2).len() implies case_twins(#[trigger] (s1 + s2)[i], (t1 + t2)[i]) by {
        if i < s1.len() {
            assert(case_twins(s1[i], t1[i]));
        } else {
            assert(case_twins(s2[i - s1.len()], t2[i - s1.len()]));
        }
    }
}

proof fn lemma_literal_suffixes_ascii()
    ensures
        is_ascii_text(".json"@),
        is_ascii_text("."@),
{
    reveal_strlit(".json");
    reveal_strlit(".");
}

proof fn lemma_twins_json_name(a: Seq<char>, b: Seq<char>)
    requires
        case_twins(a, b),
    ensures
        case_twins(json_file_name(a), json_file_name(b)),
{
    lemma_literal_suffixes_ascii();
    lemma_twins_refl(".json"@);
    lemma_twins_concat(a, b, ".json"@, ".json"@);
}

proof fn lemma_twins_truncation_candidates(a: Seq<char>, b: Seq<char>, limits: Seq<int>)
    requires
        case_twins(a, b),
        forall|i: int| 0 <= i < limits.len() ==> limits[i] >= 0,
    ensures
        twin_lists(truncation_candidates(a, limits), truncation_candidates(b, limits)),
    decreases limits.len(),
{
    if limits.len() > 0 {
        let l = limits.last();
        lemma_twins_truncation_candidates(a, b, limits.drop_last());
        lemma_twins_truncate(a, b, l);
        if truncate_chars(a, l) != a {
            lemma_twins_json_name(truncate_chars(a, l), truncate_chars(b, l));
        }
        lemma_twin_lists_concat(
            truncation_candidates(a, limits.drop_last()),
            truncation_candidates(b, limits.drop_last()),
            truncation_candidate(a, l),
            truncation_candidate(b, l),
        );
    }
}

proof fn lemma_twins_edited_candidate(sa: Seq<char>, ea: Seq<char>, sb: Seq<char>, eb: Seq<char>, suffix: Seq<char>)
    requires
        case_twins(sa, sb),
        case_twins(ea, eb),
    ensures
        suffix_cut_allowed(sa, suffix),
        twin_lists(edited_candidate(sa, ea, suffix), edited_candidate(sb, eb, suffix)),
{
    lemma_twins_key(sa, sb);
    let key = lookup_key(sa);
    if has_suffix(key, suffix) {
        lemma_ascii_lowered_ascii(sa);
        assert(is_ascii_text(suffix)) by {
            assert forall|i: int| 0 <= i < suffix.len() implies (suffix[i] as u32) < 128 by {
                assert(suffix[i] == key.skip(key.len() - suffix.len())[i]);
                assert((key[key.len() - suffix.len() + i] as u32) < 128);
            }
        }
        lemma_ascii_utf8_len(suffix);
        lemma_ascii_utf8_len(sa);
        lemma_ascii_utf8_len(sb);
        let n = sa.len() - suffix.len();
        lemma_ascii_prefix_of_utf8_len(sa, n);
        lemma_ascii_prefix_of_utf8_len(sb, n);
        let ba = sa.take(n);
        let bb = sb.take(n);
        lemma_twins_subrange(sa, sb, 0, n);
        assert(ba =~= sa.subrange(0, n));
        assert(bb =~= sb.subrange(0, n));
        let ua = restored_name(ba, ea);
        let ub = restored_name(bb, eb);
        assert(case_twins(ua, ub)) by {
            if ea.len() != 0 {
                lemma_literal_suffixes_ascii();
                lemma_twins_refl("."@);
                lemma_twins_concat(ba, bb, "."@, "."@);
                lemma_twins_concat(ba + "."@, bb + "."@, ea, eb);
            }
        }
        lemma_twins_json_name(ua, ub);
        lemma_twins_truncation_candidates(ua, ub, truncation_limits());
        let one_a = seq![json_file_name(ua)];
        let one_b = seq![json_file_name(ub)];
        assert(twin_lists(one_a, one_b));
        lemma_twin_lists_concat(
            one_a,
            one_b,
            truncation_candidates(ua, truncation_limits()),
            truncation_candidates(ub, truncation_limits()),
        );
    }
}

proof fn lemma_twins_edited_candidates(
    sa: Seq<char>,
    ea: Seq<char>,
    sb: Seq<char>,
    eb: Seq<char>,
    suffixes: Seq<Seq<char>>,
)
    requires
        case_twins(sa, sb),
        case_twins(ea, eb),
    ensures
        twin_lists(edited_candidates(sa, ea, suffixes), edited_candidates(sb, eb, suffixes)),
    decreases suffixes.len(),
{
    if suffixes.len() > 0 {
        lemma_twins_edited_candidates(sa, ea, sb, eb, suffixes.drop_last());
        lemma_twins_edited_candidate(sa, ea, sb, eb, suffixes.last());
        lemma_twin_lists_concat(
            edited_candidates(sa, ea, suffixes.drop_last()),
            edited_candidates(sb, eb, suffixes.drop_last()),
            edited_candidate(sa, ea, suffixes.last()),
            edited_candidate(sb, eb, suffixes.last()),
        );
    }
}

proof fn lemma_twins_stem_and_ext(a: Seq<char>, b: Seq<char>)
    requires
        case_twins(a, b),
    ensures
        case_twins(stem_and_ext(a).0, stem_and_ext(b).0),
        case_twins(stem_and_ext(a).1, stem_and_ext(b).1),
{
    lemma_twins_last_index(a, b, '.');
    lemma_last_index_of_range(a, '.');
    match last_index_of(a, '.') {
        Some(p) => {
            lemma_twins_subrange(a, b, 0, p);
            lemma_twins_subrange(a, b, p + 1, a.len() as int);
            assert(a.take(p) =~= a.subrange(0, p));
            assert(b.take(p) =~= b.subrange(0, p));
            assert(a.skip(p + 1) =~= a.subrange(p + 1, a.len() as int));
            assert(b.skip(p + 1) =~= b.subrange(p + 1, b.len() as int));
        },
        None => {},
    }
}

proof fn lemma_twin_lists_first_indexed(s: Seq<Seq<char>>, t: Seq<Seq<char>>, m: Map<Seq<char>, usize>)
    requires
        twin_lists(s, t),
    ensures
        first_indexed(s, m) == first_indexed(t, m),
    decreases s.len(),
{
    if s.len() > 0 {
        lemma_twins_key(s[0], t[0]);
        assert(twin_lists(s.drop_first(), t.drop_first())) by {
            assert forall|i: int| 0 <= i < s.drop_first().len() implies case_twins(
                #[trigger] s.drop_first()[i],
                t.drop_first()[i],
            ) by {
                assert(case_twins(s[i + 1], t[i + 1]));
            }
        }
        lemma_twin_lists_first_indexed(s.drop_first(), t.drop_first(), m);
    }
}

/// Every edit suffix can be cut off the stem of an ASCII file name.
pub proof fn lemma_ascii_name_cuts_valid(name: Seq<char>)
    requires
        is_ascii_text(name),
    ensures
        edited_cuts_valid(name),
{
    lemma_twins_refl(name);
    lemma_twins_stem_and_ext(name, name);
    lemma_ascii_stem_cuts_valid(name);
}

/// The letter case of an ASCII media file name does not change which
/// side-car it finds: candidate names are looked up lower-cased.
pub proof fn lemma_lookup_ignores_ascii_case(name1: Seq<char>, name2: Seq<char>, index: Map<Seq<char>, usize>)
    requires
        is_ascii_text(name1),
        is_ascii_text(name2),
        eq_ascii_case_insensitive(name1, name2),
    ensures
        edited_cuts_valid(name1),
        edited_cuts_valid(name2),
        meta_location(Some(name1), index) == meta_location(Some(name2), index),
{
    lemma_ascii_name_cuts_valid(name1);
    lemma_ascii_name_cuts_valid(name2);
    lemma_twins_stem_and_ext(name1, name2);
    let (s1, e1) = stem_and_ext(name1);
    let (s2, e2) = stem_and_ext(name2);
    lemma_twins_json_name(name1, name2);
    lemma_twins_truncation_candidates(name1, name2, truncation_limits());
    lemma_twins_edited_candidates(s1, e1, s2, e2, edited_suffixes());
    let h1 = seq![json_file_name(name1)];
    let h2 = seq![json_file_name(name2)];
    assert(twin_lists(h1, h2));
    lemma_twin_lists_concat(
        h1,
        h2,
        truncation_candidates(name1, truncation_limits()),
        truncation_candidates(name2, truncation_limits()),
    );
    lemma_twin_lists_concat(
        h1 + truncation_candidates(name1, truncation_limits()),
        h2 + truncation_candidates(name2, truncation_limits()),
        edited_candidates(s1, e1, edited_suffixes()),
        edited_candidates(s2, e2, edited_suffixes()),
    );
    lemma_twin_lists_first_indexed(raw_json_candidates(name1), raw_json_candidates(name2), index);
    lemma_lookup_ignores_repeats(name1, index);
    lemma_lookup_ignores_repeats(name2, index);
}

/// An edit suffix can always be cut off an ASCII stem.
pub proof fn lemma_ascii_stem_cut_allowed(stem: Seq<char>, suffix: Seq<char>)
    requires
        is_ascii_text(stem),
    ensures
        suffix_cut_allowed(stem, suffix),
{
    let key = lookup_key(stem);
    if has_suffix(key, suffix) {
        lemma_ascii_lowered_ascii(stem);
        assert(is_ascii_text(suffix)) by {
            assert forall|i: int| 0 <= i < suffix.len() implies (suffix[i] as u32) < 128 by {
                assert(suffix[i] == key.skip(key.len() - suffix.len())[i]);
                assert((key[key.len() - suffix.len() + i] as u32) < 128);
            }
        }
        lemma_ascii_utf8_len(suffix);
        lemma_ascii_utf8_len(stem);
        lemma_ascii_prefix_of_utf8_len(stem, stem.len() - suffix.len());
    }
}

/// Every edit suffix can be cut off a stem that is ASCII text, whatever
/// the extension.
pub proof fn lemma_ascii_stem_cuts_valid(name: Seq<char>)
    requires
        is_ascii_text(stem_and_ext(name).0),
    ensures
        edited_cuts_valid(name),
{
    assert forall|i: int| 0 <= i < edited_suffixes().len() implies suffix_cut_allowed(
        stem_and_ext(name).0,
        #[trigger] edited_suffixes()[i],
    ) by {
        lemma_ascii_stem_cut_allowed(stem_and_ext(name).0, edited_suffixes()[i]);
    }
}

proof fn lemma_truncation_candidates_len(s: Seq<char>, limits: Seq<int>)
    ensures
        truncation_candidates(s, limits).len() <= limits.len(),
    decreases limits.len(),
{
    if limits.len() > 0 {
        lemma_truncation_candidates_len(s, limits.drop_last());
    }
}

/// How many of `suffixes` the text `key` ends with.
pub open spec fn matching_suffix_count(key: Seq<char>, suffixes: Seq<Seq<char>>) -> nat
    decreases suffixes.len(),
{
    if suffixes.len() == 0 {
        0
    } else {
        matching_suffix_count(key, suffixes.drop_last()) + if has_suffix(key, suffixes.last()) {
            1nat
        } else {
            0nat
        }
    }
}

proof fn lemma_edited_candidates_len(stem: Seq<char>, ext: Seq<char>, suffixes: Seq<Seq<char>>)
    ensures
        edited_candidates(stem, ext, suffixes).len() <= 4 * matching_suffix_count(lookup_key(stem), suffixes),
    decreases suffixes.len(),
{
    if suffixes.len() > 0 {
        lemma_edited_candidates_len(stem, ext, suffixes.drop_last());
        let suffix = suffixes.last();
        if has_suffix(lookup_key(stem), suffix) {
            match stem_base(stem, suffix) {
                Some(base) => {
                    lemma_truncation_candidates_len(restored_name(base, ext), truncation_limits());
                },
                None => {},
            }
        }
    }
}

proof fn lemma_no_matching_suffix(key: Seq<char>, suffixes: Seq<Seq<char>>)
    requires
        forall|i: int| 0 <= i < suffixes.len() ==> !has_suffix(key, #[trigger] suffixes[i]),
    ensures
        matching_suffix_count(key, suffixes) == 0,
    decreases suffixes.len(),
{
    if suffixes.len() > 0 {
        assert(!has_suffix(key, suffixes[suffixes.len() - 1]));
        lemma_no_matching_suffix(key, suffixes.drop_last());
    }
}

proof fn lemma_one_matching_suffix(key: Seq<char>, suffixes: Seq<Seq<char>>)
    requires
        forall|i: int, j: int|
            0 <= i < j < suffixes.len() ==> !(has_suffix(key, #[trigger] suffixes[i]) && has_suffix(
                key,
                #[trigger] suffixes[j],
            )),
    ensures
        matching_suffix_count(key, suffixes) <= 1,
    decreases suffixes.len(),
{
    if suffixes.len() > 0 {
        let t = suffixes.drop_last();
        if has_suffix(key, suffixes.last()) {
            assert forall|i: int| 0 <= i < t.len() implies !has_suffix(key, #[trigger] t[i]) by {
                assert(!(has_suffix(key, suffixes[i]) && has_suffix(key, suffixes[suffixes.len() - 1])));
            }
            lemma_no_matching_suffix(key, t);
        } else {
            lemma_one_matching_suffix(key, t);
        }
    }
}

proof fn lemma_suffix_tail(key: Seq<char>, suffix: Seq<char>)
    requires
        has_suffix(key, suffix),
        suffix.len() >= 2,
    ensures
        key[key.len() - 1] == suffix[suffix.len() - 1],
        key[key.len() - 2] == suffix[suffix.len() - 2],
{
    assert(key.skip(key.len() - suffix.len())[suffix.len() - 1] == suffix[suffix.len() - 1]);
    assert(key.skip(key.len() - suffix.len())[suffix.len() - 2] == suffix[suffix.len() - 2]);
}

/// A text ends with at most one edit suffix: no two of them end alike in
/// their last two characters.
pub proof fn lemma_at_most_one_edit_suffix(key: Seq<char>)
    ensures
        matching_suffix_count(key, edited_suffixes()) <= 1,
{
    reveal_strlit("-edited");
    reveal_strlit("-bearbeitet");
    reveal_strlit("-modifié");
    reveal_strlit("-modifie");
    reveal_strlit("-editado");
    reveal_strlit("-modificato");
    reveal_strlit("(1)");
    reveal_strlit("(2)");
    reveal_strlit("(3)");
    let sufs = edited_suffixes();
    assert forall|i: int, j: int|
        0 <= i < j < sufs.len() implies !(has_suffix(key, #[trigger] sufs[i]) && has_suffix(
            key,
            #[trigger] sufs[j],
        )) by {
        if has_suffix(key, sufs[i]) && has_suffix(key, sufs[j]) {
            lemma_suffix_tail(key, sufs[i]);
            lemma_suffix_tail(key, sufs[j]);
        }
    }
    lemma_one_matching_suffix(key, sufs);
}

/// Removing repeats never lengthens a list.
pub proof fn lemma_without_repeats_len(s: Seq<Seq<char>>)
    ensures
        without_repeats(s).len() <= s.len(),
    decreases s.len(),
{
    if s.len() > 0 {
        lemma_without_repeats_len(s.drop_last());
    }
}

proof fn lemma_truncation_candidates_json(s: Seq<char>, limits: Seq<int>)
    ensures
        forall|i: int|
            0 <= i < truncation_candidates(s, limits).len() ==> (exists|x: Seq<char>|
                #[trigger] truncation_candidates(s, limits)[i] == json_file_name(x)),
    decreases limits.len(),
{
    if limits.len() > 0 {
        let t = truncation_candidates(s, limits.drop_last());
        let c = truncation_candidate(s, limits.last());
        lemma_truncation_candidates_json(s, limits.drop_last());
        assert forall|i: int| 0 <= i < (t + c).len() implies (exists|x: Seq<char>|
            #[trigger] (t + c)[i] == json_file_name(x)) by {
            if i < t.len() {
                assert((t + c)[i] == t[i]);
            } else {
                assert((t + c)[i] == json_file_name(truncate_chars(s, limits.last())));
            }
        }
    }
}

proof fn lemma_edited_candidates_json(stem: Seq<char>, ext: Seq<char>, suffixes: Seq<Seq<char>>)
    ensures
        forall|i: int|
            0 <= i < edited_candidates(stem, ext, suffixes).len() ==> (exists|x: Seq<char>|
                #[trigger] edited_candidates(stem, ext, suffixes)[i] == json_file_name(x)),
    decreases suffixes.len(),
{
    if suffixes.len() > 0 {
        let t = edited_candidates(stem, ext, suffixes.drop_last());
        let c = edited_candidate(stem, ext, suffixes.last());
        lemma_edited_candidates_json(stem, ext, suffixes.drop_last());
        if has_suffix(lookup_key(stem), suffixes.last()) {
            if let Some(base) = stem_base(stem, suffixes.last()) {
                lemma_truncation_candidates_json(restored_name(base, ext), truncation_limits());
            }
        }
        assert forall|i: int| 0 <= i < (t + c).len() implies (exists|x: Seq<char>|
            #[trigger] (t + c)[i] == json_file_name(x)) by {
            if i < t.len() {
                assert((t + c)[i] == t[i]);
            } else {
                assert((t + c)[i] == c[i - t.len()]);
                if has_suffix(lookup_key(stem), suffixes.last()) {
                    if let Some(base) = stem_base(stem, suffixes.last()) {
                        let u = restored_name(base, ext);
                        if i - t.len() > 0 {
                            assert(c[i - t.len()] == truncation_candidates(u, truncation_limits())[i - t.len() - 1]);
                        }
                    }
                }
            }
        }
    }
}

/// The names tried for a media file: the first is its own name with
/// `.json` appended, each is some name with `.json` appended, none is tried
/// twice, and there are at most eight (the exact name, three cuts, and the
/// unedited name with its three cuts: a name ends with at most one edit
/// suffix).
pub proof fn lemma_candidate_shape(name: Seq<char>)
    ensures
        json_candidates(name).len() >= 1,
        json_candidates(name).len() <= 8,
        json_candidates(name)[0] == json_file_name(name),
        json_candidates(name).no_duplicates(),
        forall|i: int|
            0 <= i < json_candidates(name).len() ==> has_suffix(
                #[trigger] json_candidates(name)[i],
                ".json"@,
            ),
{
    let raw = raw_json_candidates(name);
    let (stem, ext) = stem_and_ext(name);
    lemma_exact_name_first(name);
    lemma_truncation_candidates_len(name, truncation_limits());
    lemma_edited_candidates_len(stem, ext, edited_suffixes());
    lemma_at_most_one_edit_suffix(lookup_key(stem));
    lemma_without_repeats_len(raw);
    let h = seq![json_file_name(name)];
    let t = truncation_candidates(name, truncation_limits());
    let e = edited_candidates(stem, ext, edited_suffixes());
    assert(raw == h + t + e);
    lemma_truncation_candidates_json(name, truncation_limits());
    lemma_edited_candidates_json(stem, ext, edited_suffixes());
    assert forall|i: int| 0 <= i < json_candidates(name).len() implies has_suffix(
        #[trigger] json_candidates(name)[i],
        ".json"@,
    ) by {
        let c = json_candidates(name)[i];
        assert(without_repeats(raw).contains(c));
        lemma_without_repeats_members(raw, c);
        let k = choose|k: int| 0 <= k < raw.len() && raw[k] == c;
        assert(exists|x: Seq<char>| c == json_file_name(x)) by {
            if k == 0 {
                assert(c == json_file_name(name));
            } else if k < 1 + t.len() {
                assert(c == t[k - 1]);
            } else {
                assert(c == e[k - 1 - t.len()]);
            }
        }
        let x = choose|x: Seq<char>| c == json_file_name(x);
        assert((x + ".json"@).skip(x.len() as int) =~= ".json"@);
    }
}

proof fn lemma_edited_candidates_member(
    stem: Seq<char>,
    ext: Seq<char>,
    suffixes: Seq<Seq<char>>,
    i: int,
    x: Seq<char>,
)
    requires
        0 <= i < suffixes.len(),
        edited_candidate(stem, ext, suffixes[i]).contains(x),
    ensures
        edited_candidates(stem, ext, suffixes).contains(x),
    decreases suffixes.len(),
{
    let front = edited_candidates(stem, ext, suffixes.drop_last());
    let back = edited_candidate(stem, ext, suffixes.last());
    if i == suffixes.len() - 1 {
        let k = choose|k: int| 0 <= k < back.len() && back[k] == x;
        assert((front + back)[front.len() + k] == x);
    } else {
        assert(suffixes.drop_last()[i] == suffixes[i]);
        lemma_edited_candidates_member(stem, ext, suffixes.drop_last(), i, x);
        let k = choose|k: int| 0 <= k < front.len() && front[k] == x;
        assert((front + back)[k] == x);
    }
}

/// A media file whose stem is `base` followed by an edit suffix (-edited,
/// -bearbeitet, -modifié, -modifie, -editado, -modificato, (1), (2) or (3))
/// tries the side-car of the unedited file `base.ext`, whenever the
/// lower-cased stem ends with that suffix.
pub proof fn lemma_edited_name_tries_unedited(base: Seq<char>, suffix: Seq<char>, ext: Seq<char>)
    requires
        suffix == "-edited"@ || suffix == "-bearbeitet"@ || suffix == "-modifié"@ || suffix
            == "-modifie"@ || suffix == "-editado"@ || suffix == "-modificato"@ || suffix == "(1)"@
            || suffix == "(2)"@ || suffix == "(3)"@,
        ext.len() > 0,
        !ext.contains('.'),
        has_suffix(lookup_key(base + suffix), suffix),
    ensures
        json_candidates(base + suffix + "."@ + ext).contains(json_file_name(base + "."@ + ext)),
{
    reveal_strlit(".");
    reveal_strlit("-edited");
    reveal_strlit("-bearbeitet");
    reveal_strlit("-modifié");
    reveal_strlit("-modifie");
    reveal_strlit("-editado");
    reveal_strlit("-modificato");
    reveal_strlit("(1)");
    reveal_strlit("(2)");
    reveal_strlit("(3)");
    let stem = base + suffix;
    let name = stem + "."@ + ext;
    let all = edited_suffixes();
    let i: int = if suffix == "-edited"@ {
        0
    } else if suffix == "-bearbeitet"@ {
        1
    } else if suffix == "-modifié"@ {
        2
    } else if suffix == "-modifie"@ {
        3
    } else if suffix == "-editado"@ {
        4
    } else if suffix == "-modificato"@ {
        5
    } else if suffix == "(1)"@ {
        6
    } else if suffix == "(2)"@ {
        7
    } else {
        8
    };
    assert(all[i] == suffix);
    assert(!suffix.contains('.')) by {
        if suffix.contains('.') {
            let k = choose|k: int| 0 <= k < suffix.len() && suffix[k] == '.';
            assert(suffix[k] == '.');
        }
    }
    assert(name =~= stem.push('.') + ext);
    lemma_last_index_of_concat(stem, '.', ext);
    assert(name.take(stem.len() as int) =~= stem);
    assert(name.skip(stem.len() as int + 1) =~= ext);
    assert(stem_and_ext(name) == (stem, ext));
    lemma_utf8_len_concat(base, suffix);
    lemma_prefix_of_utf8_len_concat(base, suffix);
    assert(stem_base(stem, suffix) == Some(base));
    let target = json_file_name(base + "."@ + ext);
    assert(restored_name(base, ext) == base + "."@ + ext);
    let one = edited_candidate(stem, ext, suffix);
    assert(one[0] == target);
    lemma_edited_candidates_member(stem, ext, all, i, target);
    let h = seq![json_file_name(name)] + truncation_candidates(name, truncation_limits());
    let e = edited_candidates(stem, ext, all);
    let raw = raw_json_candidates(name);
    assert(raw == h + e);
    let k = choose|k: int| 0 <= k < e.len() && e[k] == target;
    assert(raw[h.len() + k] == target);
    lemma_without_repeats_members(raw, target);
}

/// For an ASCII stem the premise of `lemma_edited_name_tries_unedited`
/// always holds: a file named `base`, an ASCII edit suffix, `.` and an
/// extension tries the side-car of the unedited file `base.ext`; e.g.
/// `IMG_0001-editado.jpg` tries `IMG_0001.jpg.json`.
pub proof fn lemma_ascii_edited_name_tries_unedited(base: Seq<char>, suffix: Seq<char>, ext: Seq<char>)
    requires
        suffix == "-edited"@ || suffix == "-bearbeitet"@ || suffix == "-modifie"@ || suffix
            == "-editado"@ || suffix == "-modificato"@ || suffix == "(1)"@ || suffix == "(2)"@
            || suffix == "(3)"@,
        is_ascii_text(base),
        ext.len() > 0,
        !ext.contains('.'),
    ensures
        json_candidates(base + suffix + "."@ + ext).contains(json_file_name(base + "."@ + ext)),
{
    reveal_strlit("-edited");
    reveal_strlit("-bearbeitet");
    reveal_strlit("-modifie");
    reveal_strlit("-editado");
    reveal_strlit("-modificato");
    reveal_strlit("(1)");
    reveal_strlit("(2)");
    reveal_strlit("(3)");
    let stem = base + suffix;
    assert forall|j: int| 0 <= j < suffix.len() implies (suffix[j] as u32) < 128 && !(
    'A' <= suffix[j] && suffix[j] <= 'Z') by {
        assert(0 <= j < suffix.len());
    }
    assert(is_ascii_text(stem)) by {
        assert forall|j: int| 0 <= j < stem.len() implies (stem[j] as u32) < 128 by {
            if j >= base.len() {
                assert(stem[j] == suffix[j - base.len()]);
            }
        }
    }
    let key = lookup_key(stem);
    assert(key == ascii_lowered(stem));
    assert(key.skip(key.len() - suffix.len()) =~= suffix) by {
        assert forall|j: int| 0 <= j < suffix.len() implies key.skip(key.len() - suffix.len())[j]
            == suffix[j] by {
            assert(stem[base.len() + j] == suffix[j]);
        }
    }
    lemma_edited_name_tries_unedited(base, suffix, ext);
}

proof fn lemma_first_indexed_spec(s: Seq<Seq<char>>, m: Map<Seq<char>, usize>)
    ensures
        first_indexed(s, m) matches Some(p) ==> exists|k: int|
            0 <= k < s.len() && #[trigger] m.contains_key(lookup_key(s[k])) && p == m[lookup_key(s[k])]
                && forall|j: int| 0 <= j < k ==> !m.contains_key(lookup_key(#[trigger] s[j])),
        first_indexed(s, m) is None ==> forall|j: int|
            0 <= j < s.len() ==> !m.contains_key(lookup_key(#[trigger] s[j])),
    decreases s.len(),
{
    if s.len() > 0 {
        let t = s.drop_first();
        lemma_first_indexed_spec(t, m);
        if m.contains_key(lookup_key(s[0])) {
            assert(0 <= 0 < s.len() && m.contains_key(lookup_key(s[0])) && m[lookup_key(s[0])]
                == m[lookup_key(s[0])]);
        } else {
            if let Some(p) = first_indexed(t, m) {
                let k = choose|k: int|
                    0 <= k < t.len() && #[trigger] m.contains_key(lookup_key(t[k])) && p == m[lookup_key(
                        t[k],
                    )] && forall|j: int| 0 <= j < k ==> !m.contains_key(lookup_key(#[trigger] t[j]));
                assert(s[k + 1] == t[k]);
                assert forall|j: int| 0 <= j < k + 1 implies !m.contains_key(lookup_key(#[trigger] s[j])) by {
                    if j > 0 {
                        assert(s[j] == t[j - 1]);
                    }
                }
                assert(m.contains_key(lookup_key(s[k + 1])));
            } else {
                assert forall|j: int| 0 <= j < s.len() implies !m.contains_key(lookup_key(#[trigger] s[j])) by {
                    if j > 0 {
                        assert(s[j] == t[j - 1]);
                    }
                }
            }
        }
    }
}

/// A media file finds a side-car exactly when the index holds the
/// lower-cased form of one of the names it tries, and then it finds the
/// side-car of the first such name.
pub proof fn lemma_first_tried_name_wins(name: Seq<char>, index: Map<Seq<char>, usize>)
    ensures
        meta_location(Some(name), index) is Err <==> forall|j: int|
            0 <= j < json_candidates(name).len() ==> !index.contains_key(
                lookup_key(#[trigger] json_candidates(name)[j]),
            ),
        meta_location(Some(name), index) is Err ==> meta_location(Some(name), index) == Err::<
            usize,
            SkipReason,
        >(SkipReason::NoJsonFound),
        meta_location(Some(name), index) matches Ok(p) ==> exists|k: int|
            0 <= k < json_candidates(name).len() && #[trigger] index.contains_key(
                lookup_key(json_candidates(name)[k]),
            ) && p == index[lookup_key(json_candidates(name)[k])] && forall|j: int|
                0 <= j < k ==> !index.contains_key(lookup_key(#[trigger] json_candidates(name)[j])),
{
    let c = json_candidates(name);
    lemma_first_indexed_spec(c, index);
    if let Some(p) = first_indexed(c, index) {
        let k = choose|k: int|
            0 <= k < c.len() && #[trigger] index.contains_key(lookup_key(c[k])) && p == index[lookup_key(
                c[k],
            )] && forall|j: int| 0 <= j < k ==> !index.contains_key(lookup_key(#[trigger] c[j]));
        assert(index.contains_key(lookup_key(c[k])));
    }
}

proof fn lemma_truncation_candidates_member(s: Seq<char>, limits: Seq<int>, i: int)
    requires
        0 <= i < limits.len(),
        truncate_chars(s, limits[i]) != s,
    ensures
        truncation_candidates(s, limits).contains(json_file_name(truncate_chars(s, limits[i]))),
    decreases limits.len(),
{
    let front = truncation_candidates(s, limits.drop_last());
    let back = truncation_candidate(s, limits.last());
    let x = json_file_name(truncate_chars(s, limits[i]));
    if i == limits.len() - 1 {
        assert((front + back)[front.len() as int] == x);
    } else {
        assert(limits.drop_last()[i] == limits[i]);
        lemma_truncation_candidates_member(s, limits.drop_last(), i);
        let k = choose|k: int| 0 <= k < front.len() && front[k] == x;
        assert((front + back)[k] == x);
    }
}

/// A media file tries the side-car names that Takeout cuts to 46, 47 and 51
/// bytes: for each of these limits, the name cut at the last character
/// boundary within the limit, with `.json` appended.
pub proof fn lemma_truncated_names_tried(name: Seq<char>, limit: int)
    requires
        limit == 46 || limit == 47 || limit == 51,
    ensures
        json_candidates(name).contains(json_file_name(truncate_chars(name, limit))),
{
    let raw = raw_json_candidates(name);
    let x = json_file_name(truncate_chars(name, limit));
    if truncate_chars(name, limit) == name {
        assert(raw[0] == x);
    } else {
        let l = truncation_limits();
        let i: int = if limit == 46 {
            0
        } else if limit == 47 {
            1
        } else {
            2
        };
        assert(l[i] == limit);
        lemma_truncation_candidates_member(name, l, i);
        let t = truncation_candidates(name, l);
        let k = choose|k: int| 0 <= k < t.len() && t[k] == x;
        let (stem, ext) = stem_and_ext(name);
        assert(raw == seq![json_file_name(name)] + t + edited_candidates(stem, ext, edited_suffixes()));
        assert(raw[1 + k] == x);
    }
    lemma_without_repeats_members(raw, x);
}

} // verus!
