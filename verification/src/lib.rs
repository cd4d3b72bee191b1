pub mod model;
pub mod export_csv;
pub mod manage;
pub mod errcode;
pub mod thumbs;
mod text;
pub mod downloader;
pub mod convert;
pub mod online;
pub mod realm_db;
pub mod osu_parser;
pub mod library;
pub mod config;
pub mod detect;
