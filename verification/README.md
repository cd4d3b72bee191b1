# osu_song_manager

The library behind a desktop manager for osu! beatmap libraries (osu!lazer databases, osu!stable
`Songs` folders and `.osz` folders), written in Verus: every function in `src/` carries a
contract that Verus proves.

- `src/realm_db.rs` reads a lazer database image (the Realm file format): tables, columns,
  string and list columns, and the beatmap sets and their files.
- `src/osu_parser.rs` reads the text of an `.osu` file; `src/library.rs` assembles a set from a
  folder's or archive's files.
- `src/manage.rs` holds duplicate detection, the read-only guard for the lazer library,
  collision-free names and archive plans.
- `src/convert.rs` plans and runs lazer-to-stable conversions; `src/downloader.rs` the mirror
  chain of `.osz` downloads; `src/online.rs` online metadata, its cache and the osu! login.
- `src/thumbs.rs` thumbnail cache keys and the Windows-safe export names; `src/export_csv.rs` the
  library CSV; `src/detect.rs` and `src/config.rs` library detection and settings.
- `src/text.rs` the string and number helpers the others share.

Laws that span several functions stand in `src/` as public proof functions (for example
`duplicate_groups_ordered`, `eviction_drops_oldest`, `thumb_uri_round_trip`,
`pack_entry_names_distinct`, `sanitize_is_idempotent`). Functions that call out to the file
system or the network take that work as closures (`probe`, `attempt`, `taken`, ...), and their
contracts say what holds whatever those closures report.

`app/` is the ordinary Rust around the library: file system, network, archives, images, the
login server, and the floating-point rewriting of `.osu` files for stable. `tests/` runs the
library on concrete values.
