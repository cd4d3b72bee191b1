//! Stable error codes returned to the front end: `err.<name>` optionally followed by
//! `|`-separated parameters (`|` cannot occur in Windows file names).
use vstd::prelude::*;
use crate::text::{push_char, push_str};

verus! {

/// The error text for a bare code.
pub fn ec(code: &str) -> (r: String)
    ensures
        r@ == code@,
{
    let mut s = String::new();
    push_str(&mut s, code);
    s
}

/// `code|p0`
pub fn ec1(code: &str, p0: &str) -> (r: String)
    ensures
        r@ == code@ + seq!['|'] + p0@,
{
    let mut s = String::new();
    push_str(&mut s, code);
    push_char(&mut s, '|');
    push_str(&mut s, p0);
    s
}

/// `code|p0|p1`
pub fn ec2(code: &str, p0: &str, p1: &str) -> (r: String)
    ensures
        r@ == code@ + seq!['|'] + p0@ + seq!['|'] + p1@,
{
    let mut s = String::new();
    push_str(&mut s, code);
    push_char(&mut s, '|');
    push_str(&mut s, p0);
    push_char(&mut s, '|');
    push_str(&mut s, p1);
    s
}

/// `code|p0|p1|p2`
pub fn ec3(code: &str, p0: &str, p1: &str, p2: &str) -> (r: String)
    ensures
        r@ == code@ + seq!['|'] + p0@ + seq!['|'] + p1@ + seq!['|'] + p2@,
{
    let mut s = String::new();
    push_str(&mut s, code);
    push_char(&mut s, '|');
    push_str(&mut s, p0);
    push_char(&mut s, '|');
    push_str(&mut s, p1);
    push_char(&mut s, '|');
    push_str(&mut s, p2);
    s
}

pub const DIR_NOT_FOUND: &'static str = "err.dirNotFound";
pub const LAZER_NO_REALM: &'static str = "err.lazerNoRealm";
pub const STABLE_IS_LAZER: &'static str = "err.stableIsLazer";
pub const SCAN_INTERRUPTED: &'static str = "err.scanInterrupted";
pub const SONGS_DIR_NOT_FOUND: &'static str = "err.songsDirNotFound";
pub const READ_DIR_FAILED: &'static str = "err.readDirFailed";
pub const REALM_NOT_FOUND: &'static str = "err.realmNotFound";
pub const REALM_READ_FAILED: &'static str = "err.realmReadFailed";
pub const REALM_MISSING_TABLE: &'static str = "err.realmMissingTable";
pub const LAZER_READ_ONLY: &'static str = "err.lazerReadOnly";
pub const BAD_SHAPE: &'static str = "err.badShape";
pub const COPY_FAILED: &'static str = "err.copyFailed";
pub const COPIED_TRASH_FAILED: &'static str = "err.copiedButTrashFailed";
pub const PATH_MISSING: &'static str = "err.pathMissing";
pub const BAD_PATH_NAME: &'static str = "err.badPathName";
pub const TARGET_DIR_UNAVAILABLE: &'static str = "err.targetDirUnavailable";
pub const OUT_PARENT_MISSING: &'static str = "err.outParentMissing";
pub const PACK_TOO_BIG: &'static str = "err.packTooBig";
pub const CREATE_ARCHIVE_FAILED: &'static str = "err.createArchiveFailed";
pub const ARCHIVE_FINISH_FAILED: &'static str = "err.archiveFinishFailed";
pub const DETECT_INTERRUPTED: &'static str = "err.detectInterrupted";
pub const DELETE_INTERRUPTED: &'static str = "err.deleteInterrupted";
pub const MOVE_INTERRUPTED: &'static str = "err.moveInterrupted";
pub const PACK_INTERRUPTED: &'static str = "err.packInterrupted";
pub const THUMB_READ_FAILED: &'static str = "err.thumbReadFailed";
pub const THUMB_DECODE_FAILED: &'static str = "err.thumbDecodeFailed";
pub const THUMB_JPEG_FAILED: &'static str = "err.thumbJpegFailed";
pub const EXPORT_SOURCE_MISSING: &'static str = "err.exportSourceMissing";
pub const THUMB_BATCH_TOO_LARGE: &'static str = "err.thumbBatchTooLarge";
pub const THUMB_INTERRUPTED: &'static str = "err.thumbInterrupted";
pub const DIALOG_INTERRUPTED: &'static str = "err.dialogInterrupted";
pub const EXPORT_INTERRUPTED: &'static str = "err.exportInterrupted";
pub const DOWNLOAD_TOO_MANY: &'static str = "err.downloadTooMany";
pub const CREATE_TARGET_DIR_FAILED: &'static str = "err.createTargetDirFailed";
pub const DOWNLOAD_BUSY: &'static str = "err.downloadBusy";
pub const DOWNLOAD_INTERRUPTED: &'static str = "err.downloadInterrupted";
pub const HTTP_CLIENT_FAILED: &'static str = "err.httpClientFailed";
pub const CANCELLED: &'static str = "err.cancelled";
pub const ALL_MIRRORS_COOLING: &'static str = "err.allMirrorsCooling";
pub const NOT_ZIP_RESPONSE: &'static str = "err.notZipResponse";
pub const HTTP_COOLING: &'static str = "err.httpCooling";
pub const ZIP_OPEN_FAILED: &'static str = "err.zipOpenFailed";
pub const ZIP_NO_OSU: &'static str = "err.zipNoOsu";
pub const READ_INTERRUPTED: &'static str = "err.readInterrupted";
pub const WRITE_FAILED: &'static str = "err.writeFailed";
pub const PART_CREATE_FAILED: &'static str = "err.partCreateFailed";
pub const RENAME_FAILED: &'static str = "err.renameFailed";
pub const NETWORK: &'static str = "err.network";
pub const TOKEN_FAILED: &'static str = "err.tokenFailed";
pub const TOKEN_PARSE_FAILED: &'static str = "err.tokenParseFailed";
pub const TOKEN_MISSING_ACCESS: &'static str = "err.tokenMissingAccess";
pub const TOKEN_MISSING_REFRESH: &'static str = "err.tokenMissingRefresh";
pub const OAUTH_CREDS_MISSING: &'static str = "err.oauthCredsMissing";
pub const STATE_LOCK_UNAVAILABLE: &'static str = "err.stateLockUnavailable";
pub const PORT_BUSY: &'static str = "err.portBusy";
pub const CODE_EMPTY: &'static str = "err.codeEmpty";
pub const CLIENT_ID_EMPTY: &'static str = "err.clientIdEmpty";
pub const CLIENT_SECRET_EMPTY: &'static str = "err.clientSecretEmpty";
pub const ONLINE_INTERRUPTED: &'static str = "err.onlineInterrupted";
pub const LOGIN_INTERRUPTED: &'static str = "err.loginInterrupted";
pub const STATE_MISMATCH: &'static str = "err.stateMismatch";
pub const CALLBACK_NO_CODE: &'static str = "err.callbackNoCode";
pub const CREATE_CSV_FAILED: &'static str = "err.createCsvFailed";
pub const WRITE_BOM_FAILED: &'static str = "err.writeBomFailed";
pub const CSV_INTERRUPTED: &'static str = "err.csvInterrupted";
pub const CONVERT_BUSY: &'static str = "err.convertBusy";
pub const CONVERT_NO_SETS: &'static str = "err.convertNoSets";
pub const CONVERT_TOO_MANY: &'static str = "err.convertTooMany";
pub const CONVERT_NO_LAZER_DIR: &'static str = "err.convertNoLazerDir";
pub const CONVERT_SCAN_FAILED: &'static str = "err.convertScanFailed";
pub const CONVERT_INTERRUPTED: &'static str = "err.convertInterrupted";
pub const CONVERT_LOCAL_UNSUPPORTED: &'static str = "err.convertLocalUnsupported";
pub const CONVERT_SET_NOT_FOUND: &'static str = "err.convertSetNotFound";
pub const CONVERT_SOURCE_MISSING: &'static str = "err.convertSourceMissing";
pub const CONVERT_WRITE_FAILED: &'static str = "err.convertWriteFailed";
pub const CONVERT_CREATE_DIR_FAILED: &'static str = "err.convertCreateDirFailed";
pub const CONVERT_ZIP_FAILED: &'static str = "err.convertZipFailed";

} // verus!
