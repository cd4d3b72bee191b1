//! The persisted application settings.
use vstd::prelude::*;
use crate::model::SourceKind;

verus! {

/// Application settings: the active library kind and the directories chosen for each kind.
#[derive(Debug)]
pub struct AppConfig {
    pub mode: Option<SourceKind>,
    pub lazer_dir: Option<String>,
    pub stable_songs_dir: Option<String>,
    pub osz_dir: Option<String>,
    pub last_export_dir: Option<String>,
    pub last_download_dir: Option<String>,
}

impl Default for AppConfig {
    fn default() -> (c: AppConfig)
        ensures
            c.mode is None,
            c.lazer_dir is None,
            c.stable_songs_dir is None,
            c.osz_dir is None,
            c.last_export_dir is None,
            c.last_download_dir is None,
    {
        AppConfig {
            mode: None,
            lazer_dir: None,
            stable_songs_dir: None,
            osz_dir: None,
            last_export_dir: None,
            last_download_dir: None,
        }
    }
}

pub open spec fn opt_view(o: Option<String>) -> Option<Seq<char>> {
    match o {
        Some(s) => Some(s@),
        None => None,
    }
}

impl AppConfig {
    /// The directory chosen for the active kind, with that kind.
    pub open spec fn active_spec(&self) -> Option<(SourceKind, Seq<char>)> {
        match self.mode {
            None => None,
            Some(k) => {
                let d = match k {
                    SourceKind::Lazer => opt_view(self.lazer_dir),
                    SourceKind::Stable => opt_view(self.stable_songs_dir),
                    SourceKind::OszFolder => opt_view(self.osz_dir),
                };
                match d {
                    Some(p) => Some((k, p)),
                    None => None,
                }
            },
        }
    }

    /// The active library: the kind and the directory chosen for it, none when either is unset.
    pub fn active_path(&self) -> (r: Option<(SourceKind, String)>)
        ensures
            match self.active_spec() {
                Some((k, p)) => r matches Some((rk, rp)) && rk == k && rp@ == p,
                None => r is None,
            },
    {
        match self.mode {
            None => None,
            Some(SourceKind::Lazer) => match &self.lazer_dir {
                Some(p) => Some((SourceKind::Lazer, p.clone())),
                None => None,
            },
            Some(SourceKind::Stable) => match &self.stable_songs_dir {
                Some(p) => Some((SourceKind::Stable, p.clone())),
                None => None,
            },
            Some(SourceKind::OszFolder) => match &self.osz_dir {
                Some(p) => Some((SourceKind::OszFolder, p.clone())),
                None => None,
            },
        }
    }
}

} // verus!
