# ytsplit

A command-line tool that downloads the audio of a YouTube video (or
playlist) with `yt-dlp`, renames the download after its video id, and cuts
the audio into tracks with `ffmpeg`, following a timestamps file.

- `src/` is the verified library (Verus): reading the timestamps file and
  its format line, building the `ffmpeg` and `yt-dlp` commands, reading the
  downloaded file's name out of `yt-dlp`'s output, and planning the renaming.
  - `text.rs`: searching, splitting and trimming character sequences.
  - `split.rs`: the timestamps file and the split commands.
  - `download.rs`, `playlist.rs`: the outcome of a `yt-dlp` run and the new
    names of a download.
  - `cli.rs`: the decisions of the subcommands and the default thread count.
- `app/` runs the commands, touches the file system, parses the command line
  and runs the splits on a thread pool.

A timestamps file holds one track per non-empty line. Its first line may
declare the column order as the words `start`, `end` and `name` in any order
(case does not matter); without it each line reads `NAME.mp3 START END`.
