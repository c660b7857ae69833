//! Verified core of a command-line tool that downloads audio with `yt-dlp`,
//! renames the download after its video id, and splits the audio into tracks
//! described by a timestamps file.

pub mod cli;
pub mod text;
pub mod split;
pub mod download;
pub mod playlist;

