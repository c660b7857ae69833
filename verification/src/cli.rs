//! The decisions behind the subcommands: the default thread count, what a
//! finished download hands on, and which input a split reads.
use vstd::prelude::*;
use crate::download::Download;
use crate::playlist::Download as PlaylistDownload;

verus! {

/// The default number of threads that a split runs its `ffmpeg` commands on.
pub fn get_cpu_default() -> (threads: usize)
    ensures
        threads == 5,
{
    5
}

/// The file that a successful download wrote: the one that is then renamed
/// after its video id.
pub fn download_command(res: Download) -> (file: String)
    requires
        res is Success,
    ensures
        res matches Download::Success { filename } && file == filename,
{
    match res {
        Download::Success { filename } => filename,
        Download::Failed => {
            proof {
                assert(false);
            }
            String::new()
        },
    }
}

/// Renaming from a rename file is not offered yet: the command does nothing.
pub fn rename_command(rename_file: String) {
}

/// The files that a successful playlist download wrote.
pub fn playlist_command(res: PlaylistDownload) -> (files: Vec<String>)
    requires
        res is Success,
    ensures
        res matches PlaylistDownload::Success { filenames } && files == filenames,
{
    match res {
        PlaylistDownload::Success { filenames } => filenames,
        PlaylistDownload::Failed => {
            proof {
                assert(false);
            }
            Vec::new()
        },
    }
}

/// The input audio of a split: the default `input.opus` when the working
/// directory holds it, otherwise the file given on the command line.
pub fn split_input_name(default_exists: bool, input_file: String) -> (name: String)
    ensures
        name@ == if default_exists {
            "input.opus"@
        } else {
            input_file@
        },
{
    if default_exists {
        String::from_str("input.opus")
    } else {
        input_file
    }
}

} // verus!
