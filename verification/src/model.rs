//! Plain data exchanged with the front end: enums, reports and progress records.
use vstd::prelude::*;

verus! {

/// osu! game mode of a difficulty.
#[derive(Debug, Clone, Copy, PartialEq, Eq, Structural)]
pub enum GameMode {
    Osu,
    Taiko,
    Catch,
    Mania,
}

impl GameMode {
    /// Ruleset number as stored in `.osu` files: 1 taiko, 2 catch, 3 mania, anything else osu!.
    pub open spec fn spec_from_int(v: u8) -> GameMode {
        if v == 1 {
            GameMode::Taiko
        } else if v == 2 {
            GameMode::Catch
        } else if v == 3 {
            GameMode::Mania
        } else {
            GameMode::Osu
        }
    }

    pub fn from_int(v: u8) -> (m: GameMode)
        ensures
            m == Self::spec_from_int(v),
    {
        match v {
            1 => GameMode::Taiko,
            2 => GameMode::Catch,
            3 => GameMode::Mania,
            _ => GameMode::Osu,
        }
    }

    pub open spec fn spec_display(self) -> Seq<char> {
        match self {
            GameMode::Osu => "osu!"@,
            GameMode::Taiko => "taiko"@,
            GameMode::Catch => "catch"@,
            GameMode::Mania => "mania"@,
        }
    }

    /// Human-readable mode name (diagnostics).
    pub fn display(&self) -> (s: &'static str)
        ensures
            s@ == self.spec_display(),
    {
        match self {
            GameMode::Osu => "osu!",
            GameMode::Taiko => "taiko",
            GameMode::Catch => "catch",
            GameMode::Mania => "mania",
        }
    }
}

/// Online status of a beatmap set (lazer's persisted numeric values).
#[derive(Debug, Clone, Copy, PartialEq, Eq, Structural)]
pub enum BeatmapStatus {
    Graveyard,
    Wip,
    Pending,
    Ranked,
    Approved,
    Qualified,
    Loved,
    Unknown,
}

impl BeatmapStatus {
    /// -3 graveyard, -2 wip, -1 pending, 1 ranked, 2 approved, 3 qualified, 4 loved;
    /// everything else (0 = none included) is unknown.
    pub open spec fn spec_from_lazer_numeric(v: int) -> BeatmapStatus {
        if v == -3 {
            BeatmapStatus::Graveyard
        } else if v == -2 {
            BeatmapStatus::Wip
        } else if v == -1 {
            BeatmapStatus::Pending
        } else if v == 1 {
            BeatmapStatus::Ranked
        } else if v == 2 {
            BeatmapStatus::Approved
        } else if v == 3 {
            BeatmapStatus::Qualified
        } else if v == 4 {
            BeatmapStatus::Loved
        } else {
            BeatmapStatus::Unknown
        }
    }

    pub fn from_lazer_numeric(v: i64) -> (s: BeatmapStatus)
        ensures
            s == Self::spec_from_lazer_numeric(v as int),
    {
        match v {
            -3 => BeatmapStatus::Graveyard,
            -2 => BeatmapStatus::Wip,
            -1 => BeatmapStatus::Pending,
            1 => BeatmapStatus::Ranked,
            2 => BeatmapStatus::Approved,
            3 => BeatmapStatus::Qualified,
            4 => BeatmapStatus::Loved,
            _ => BeatmapStatus::Unknown,
        }
    }
}

/// Where a library comes from.
#[derive(Debug, Clone, Copy, PartialEq, Eq, Structural)]
pub enum SourceKind {
    /// osu!lazer data directory (client.realm, read only)
    Lazer,
    /// osu!stable Songs directory
    Stable,
    /// a folder of .osz archives
    OszFolder,
}

/// A detected candidate library.
#[derive(Debug)]
pub struct LibraryCandidate {
    pub kind: SourceKind,
    pub path: String,
    pub detail: String,
}

/// State of the online-metadata pipeline.
#[derive(Debug)]
pub struct OnlineStatus {
    pub logged_in: bool,
    pub source: String,
    pub cached_count: u64,
}

/// OAuth client configuration as shown to the user (the secret never leaves).
#[derive(Debug)]
pub struct OauthConfigView {
    pub client_id: String,
    pub has_secret: bool,
}

/// Thumbnail generation request.
#[derive(Debug)]
pub struct ThumbRequest {
    pub set_id: i64,
    pub source_path: String,
    pub size: u32,
}

/// Thumbnail generation result; `key` is the cache file name when `ok`.
#[derive(Debug)]
pub struct ThumbResult {
    pub set_id: i64,
    pub key: Option<String>,
    pub ok: bool,
}

/// One background to export.
#[derive(Debug)]
pub struct ExportSet {
    pub set_id: i64,
    pub artist: String,
    pub title: String,
    pub creator: String,
    pub source_path: String,
}

/// Background export summary.
#[derive(Debug)]
pub struct ExportReport {
    pub exported: u32,
    pub renamed: u32,
    pub failed: u32,
    pub errors: Vec<String>,
}

/// Library CSV export summary.
#[derive(Debug)]
pub struct ExportCsvReport {
    pub file_path: String,
    pub sets: u32,
    pub rows: u32,
}

/// export-progress event payload.
#[derive(Debug)]
pub struct ExportProgress {
    pub done: u32,
    pub total: u32,
    pub current: String,
}

/// One member of a duplicate group.
#[derive(Debug)]
pub struct DupMember {
    pub set_id: i64,
    pub title: String,
    pub artist: String,
    pub creator: String,
    pub difficulty_count: u32,
    pub location: String,
    pub size_bytes: u64,
    pub first_added: Option<i64>,
}

/// A group of duplicates; `reason` is "setOnlineId", "md5" or "identicalSet".
#[derive(Debug)]
pub struct DuplicateGroup {
    pub reason: String,
    pub label: String,
    pub members: Vec<DupMember>,
}

#[derive(Debug)]
pub struct FailedPath {
    pub path: String,
    pub error: String,
}

#[derive(Debug)]
pub struct TrashReport {
    pub deleted: Vec<String>,
    pub failed: Vec<FailedPath>,
}

/// `moved` holds the final target paths (after collision renaming).
#[derive(Debug)]
pub struct MoveReport {
    pub moved: Vec<String>,
    pub failed: Vec<FailedPath>,
}

#[derive(Debug)]
pub struct PackReport {
    pub packed: u32,
    pub bytes: u64,
    pub skipped: Vec<String>,
}

/// download-progress state.
#[derive(Debug, Clone, Copy, PartialEq, Eq, Structural)]
pub enum DownloadState {
    Queued,
    Downloading,
    Validating,
    Done,
    Failed,
    Cancelled,
}

/// download-progress event payload.
#[derive(Debug)]
pub struct DownloadProgress {
    pub set_id: u64,
    pub state: DownloadState,
    pub mirror: Option<String>,
    pub received: u64,
    pub total: u64,
    pub error: Option<String>,
}

/// Final result of one set's download.
#[derive(Debug)]
pub struct DownloadResult {
    pub set_id: u64,
    pub ok: bool,
    pub path: Option<String>,
    pub mirror: Option<String>,
    pub bytes: u64,
    pub error: Option<String>,
}

/// convert-progress state.
#[derive(Debug, Clone, Copy, PartialEq, Eq, Structural)]
pub enum ConvertState {
    Queued,
    Converting,
    Done,
    Failed,
    Cancelled,
}

/// convert-progress event payload.
#[derive(Debug)]
pub struct ConvertProgress {
    pub done: u32,
    pub total: u32,
    pub set_id: i64,
    pub state: ConvertState,
    pub current: String,
    pub error: Option<String>,
}

/// Result of converting one set.
#[derive(Debug)]
pub struct ConvertSetResult {
    pub set_id: i64,
    pub ok: bool,
    pub output: Option<String>,
    pub files: u32,
    pub bytes: u64,
    pub error: Option<String>,
    pub warnings: Vec<String>,
}

/// Report of a conversion batch.
#[derive(Debug)]
pub struct ConvertReport {
    pub total: u32,
    pub converted: u32,
    pub failed: u32,
    pub cancelled: bool,
    pub output_dir: String,
    pub results: Vec<ConvertSetResult>,
}

} // verus!
