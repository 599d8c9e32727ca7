# takeout_meta

Restores capture dates of photos and videos exported by Google Takeout.
Each media file in an export comes with a JSON side-car (`IMG_0001.jpg.json`)
holding `photoTakenTime` / `creationTime`; Takeout cuts long side-car names
to 46–51 bytes and edited copies (`IMG_0001-edited.jpg`) share the side-car of
the unedited file.

Layout:

- `src/` — the library, verified with Verus:
  - `text.rs` — UTF-8 lengths, truncation at character boundaries, suffixes,
    decimal numerals and `i64` parsing;
  - `file_name.rs` — stem and extension of a file name as `Path` reports them;
  - `matcher.rs` — which files are handled, the side-car index, the side-car
    names tried for a media file and the lookup;
  - `processor.rs` — file kinds, the capture date in the formats ExifTool and
    ffmpeg take, their arguments and error messages, Windows file times;
  - `commands.rs` — counts, log entries, progress events, destination names.
- `tests/` — tests of the library.
- `app/` — the Tauri application: unpacking archives, walking directories,
  reading and parsing side-cars, running the tools, copying files.
