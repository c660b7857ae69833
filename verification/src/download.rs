//! Downloading one video: the `yt-dlp` command, the file name that its
//! output reports, and the new names that the download is given.
use vstd::prelude::*;
use vstd::utf8::{decode_utf8, valid_utf8};
use crate::text::{
    chars_of, decode_utf8_string, find_from, joined, last_index_of, last_index_of_char,
    lemma_find_from, lemma_last_index_at, lemma_last_index_of, lemma_occurs_single,
    lemma_piece_until, occurs_at, split, contains_seq, split_chars, string_of, sub_chars,
};

verus! {

/// How a download ended.
pub enum Download {
    Failed,
    Success { filename: String },
}

/// The text `yt-dlp` prints before the name of the audio file it wrote.
pub open spec fn destination_marker() -> Seq<char> {
    "[ExtractAudio] Destination: "@
}

/// The command that downloads the audio of `link` with `yt-dlp`.
pub open spec fn download_command_text(link: Seq<char>) -> Seq<char> {
    "yt-dlp -ix "@ + link
}

/// Builds the shell command that downloads the audio of `link`.
pub fn craft_command(link: &String) -> (command: String)
    ensures
        command@ == download_command_text(link@),
{
    let mut command = String::from_str("yt-dlp -ix ");
    command.append(link.as_str());
    command
}

/// The name of the audio file that the output `text` of `yt-dlp` reports:
/// what follows the first destination marker, up to the next marker or the
/// end of that line.  `None` when the marker does not occur.
pub open spec fn reported_filename(text: Seq<char>) -> Option<Seq<char>> {
    let pieces = split(text, destination_marker());
    if pieces.len() < 2 {
        None
    } else {
        Some(split(pieces[1], "\n"@)[0])
    }
}

/// The file name that the output bytes of `yt-dlp` report: `None` when the
/// bytes are not UTF-8 or report no destination.
pub open spec fn output_filename(output: Seq<u8>) -> Option<Seq<char>> {
    if valid_utf8(output) {
        reported_filename(decode_utf8(output))
    } else {
        None
    }
}

/// The file name in the text `text`, when there is one.
fn filename_in_text(text: &String) -> (r: Option<String>)
    ensures
        match r {
            Some(name) => reported_filename(text@) == Some(name@),
            None => reported_filename(text@) is None,
        },
{
    let chars = chars_of(text.as_str());
    let marker = chars_of("[ExtractAudio] Destination: ");
    let newline = chars_of("\n");
    proof {
        reveal_strlit("[ExtractAudio] Destination: ");
        reveal_strlit("\n");
    }
    let pieces = split_chars(chars.as_slice(), marker.as_slice());
    if pieces.len() < 2 {
        return None;
    }
    let lines = split_chars(pieces[1].as_slice(), newline.as_slice());
    proof {
        assert(split(pieces@[1]@, "\n"@).len() > 0) by {
            lemma_split_not_empty(pieces@[1]@, "\n"@);
        }
    }
    Some(string_of(lines[0].as_slice()))
}

/// Splitting always yields at least one piece.
pub proof fn lemma_split_not_empty(s: Seq<char>, pat: Seq<char>)
    requires
        pat.len() > 0,
    ensures
        split(s, pat).len() >= 1,
{
    lemma_find_from(s, pat, 0);
}

/// Reads the name of the audio file out of the output of `yt-dlp`: the
/// output must be UTF-8 and report a destination.
pub fn parse_filename(command_output: Vec<u8>) -> (filename: String)
    requires
        output_filename(command_output@) is Some,
    ensures
        output_filename(command_output@) == Some(filename@),
{
    let text = decode_utf8_string(command_output).unwrap();
    filename_in_text(&text).unwrap()
}

/// The file name that the output bytes report, when they report one.
pub fn filename_from_output(command_output: Vec<u8>) -> (r: Option<String>)
    ensures
        match r {
            Some(name) => output_filename(command_output@) == Some(name@),
            None => output_filename(command_output@) is None,
        },
{
    match decode_utf8_string(command_output) {
        None => None,
        Some(text) => filename_in_text(&text),
    }
}

/// How a finished `yt-dlp` run ended, from its exit code and its output:
/// a success names the file reported in the output, any other code is a
/// failure.  `None` for a successful run whose output names no file.
pub fn download_outcome(exit_code: i32, stdout: Vec<u8>) -> (r: Option<Download>)
    ensures
        exit_code != 0 ==> r matches Some(Download::Failed),
        exit_code == 0 ==> match output_filename(stdout@) {
            Some(name) => r matches Some(Download::Success { filename }) && filename@ == name,
            None => r is None,
        },
{
    if exit_code == 0 {
        match filename_from_output(stdout) {
            Some(filename) => Some(Download::Success { filename }),
            None => None,
        }
    } else {
        Some(Download::Failed)
    }
}

/// The video id and the extension in a downloaded file's name
/// `TITLE [ID].EXT`: after the last `[`, with the last `]` removed, the
/// first two pieces between dots.  `None` when the name lacks a `[`, a `]`
/// after it, or a dot after that.
pub open spec fn video_id_parts(file: Seq<char>) -> Option<(Seq<char>, Seq<char>)> {
    match last_index_of(file, '[') {
        None => None,
        Some(open) => {
            let short = file.skip(open + 1);
            match last_index_of(short, ']') {
                None => None,
                Some(close) => {
                    let parts = split(short.remove(close), "."@);
                    if parts.len() < 2 {
                        None
                    } else {
                        Some((parts[0], parts[1]))
                    }
                },
            }
        },
    }
}

/// The video id and extension in `file`, when it has them.
fn video_id_of(file: &String) -> (r: Option<(String, String)>)
    ensures
        match r {
            Some((id, ext)) => video_id_parts(file@) == Some((id@, ext@)),
            None => video_id_parts(file@) is None,
        },
{
    let chars = chars_of(file.as_str());
    let open = match last_index_of_char(chars.as_slice(), '[') {
        Some(i) => i,
        None => {
            return None;
        },
    };
    proof {
        lemma_last_index_of(chars@, '[');
    }
    let short = sub_chars(chars.as_slice(), open + 1, chars.len());
    assert(short@ =~= chars@.skip(open + 1));
    let close = match last_index_of_char(short.as_slice(), ']') {
        Some(i) => i,
        None => {
            return None;
        },
    };
    proof {
        lemma_last_index_of(short@, ']');
    }
    let before = sub_chars(short.as_slice(), 0, close);
    let after = sub_chars(short.as_slice(), close + 1, short.len());
    let rest = joined(before.as_slice(), after.as_slice());
    assert(rest@ =~= short@.remove(close as int));
    let dot = chars_of(".");
    proof {
        reveal_strlit(".");
    }
    let parts = split_chars(rest.as_slice(), dot.as_slice());
    if parts.len() < 2 {
        return None;
    }
    Some((string_of(parts[0].as_slice()), string_of(parts[1].as_slice())))
}

/// Takes the downloaded file's name `TITLE [ID].EXT` apart into its video id
/// and its extension.
pub fn find_video_id(file: String) -> (parts: (String, String))
    requires
        video_id_parts(file@) is Some,
    ensures
        video_id_parts(file@) == Some((parts.0@, parts.1@)),
{
    video_id_of(&file).unwrap()
}

/// Where a download goes once it is renamed after its video id.
pub struct RenamePlan {
    /// The directory to create, named after the video id.
    pub directory: String,
    /// The timestamps file to create for the video.
    pub timestamps_file: String,
    /// What the timestamps file starts with: its format line.
    pub timestamps_contents: String,
    /// The new name of the audio file: the video id and the extension.
    pub new_name: String,
}

/// The new name of the audio file with video id `id` and extension `ext`.
pub open spec fn renamed_file(id: Seq<char>, ext: Seq<char>) -> Seq<char> {
    id + "."@ + ext
}

/// The timestamps file of the video with id `id`.
pub open spec fn timestamps_file_of(id: Seq<char>) -> Seq<char> {
    "timestamps-"@ + id + ".txt"@
}

/// What a new timestamps file holds: its format line.
pub open spec fn timestamps_template() -> Seq<char> {
    "start end name"@
}

/// Plans the renaming of a downloaded file: a directory and a timestamps file
/// named after the video id, and the new name `ID.EXT` for the audio.
/// `None` when the name holds no video id (see `video_id_parts`).
pub fn plan_rename(file: &String) -> (r: Option<RenamePlan>)
    ensures
        match video_id_parts(file@) {
            Some((id, ext)) => r matches Some(plan) && {
                &&& plan.directory@ == id
                &&& plan.timestamps_file@ == timestamps_file_of(id)
                &&& plan.timestamps_contents@ == timestamps_template()
                &&& plan.new_name@ == renamed_file(id, ext)
            },
            None => r is None,
        },
{
    let (id, ext) = match video_id_of(file) {
        Some(parts) => parts,
        None => {
            return None;
        },
    };
    let mut new_name = id.clone();
    new_name.append(".");
    new_name.append(ext.as_str());
    let mut timestamps_file = String::from_str("timestamps-");
    timestamps_file.append(id.as_str());
    timestamps_file.append(".txt");
    Some(
        RenamePlan {
            directory: id,
            timestamps_file,
            timestamps_contents: String::from_str("start end name"),
            new_name,
        },
    )
}

/// A file named the way `yt-dlp` names downloads, `TITLE [ID].EXT`, gives
/// back its video id and extension, whatever the title, when neither holds
/// a `[` or a dot and the extension holds no `]`.
pub proof fn lemma_video_id_of_download_name(title: Seq<char>, id: Seq<char>, ext: Seq<char>)
    requires
        !id.contains('['),
        !id.contains('.'),
        !ext.contains('['),
        !ext.contains(']'),
        !ext.contains('.'),
    ensures
        video_id_parts(title + seq!['['] + id + seq![']', '.'] + ext) == Some((id, ext)),
{
    let file = title + seq!['['] + id + seq![']', '.'] + ext;
    let k = title.len() as int;
    assert(file[k] == '[');
    assert forall|j: int| k < j < file.len() implies file[j] != '[' by {
        if j <= k + id.len() {
            assert(file[j] == id[j - k - 1]);
        } else if j > k + id.len() + 2 {
            assert(file[j] == ext[j - k - id.len() - 3]);
        }
    }
    lemma_last_index_at(file, '[', k);
    let short = file.skip(k + 1);
    assert(short =~= id + seq![']', '.'] + ext);
    let c = id.len() as int;
    assert(short[c] == ']');
    assert forall|j: int| c < j < short.len() implies short[j] != ']' by {
        if j > c + 1 {
            assert(short[j] == ext[j - c - 2]);
        }
    }
    lemma_last_index_at(short, ']', c);
    let rest = short.remove(c);
    assert(rest =~= id + seq!['.'] + ext);
    reveal_strlit(".");
    assert("."@ =~= seq!['.']);
    assert forall|j: int| 0 <= j < c implies !occurs_at(rest, "."@, j) by {
        lemma_occurs_single(rest, '.', j);
        assert(rest[j] == id[j]);
    }
    lemma_occurs_single(rest, '.', c);
    lemma_piece_until(rest, "."@, 0, c);
    assert forall|j: int| c + 1 <= j < rest.len() implies !occurs_at(rest, "."@, j) by {
        lemma_occurs_single(rest, '.', j);
        assert(rest[j] == ext[j - c - 1]);
    }
    lemma_piece_until(rest, "."@, c + 1, rest.len() as int);
    assert(rest.subrange(0, c) =~= id);
    assert(rest.subrange(c + 1, rest.len() as int) =~= ext);
}

/// The destination marker holds a `[` only at its start, and no line break.
proof fn lemma_marker_chars()
    ensures
        destination_marker().len() == 28,
        destination_marker()[0] == '[',
        forall|k: int| 0 < k < 28 ==> destination_marker()[k] != '[',
        forall|k: int| 0 <= k < 28 ==> destination_marker()[k] != '\n',
{
    reveal_strlit("[ExtractAudio] Destination: ");
    assert(destination_marker() =~= seq![
        '[', 'E', 'x', 't', 'r', 'a', 'c', 't', 'A', 'u', 'd', 'i', 'o', ']', ' ', 'D', 'e', 's',
        't', 'i', 'n', 'a', 't', 'i', 'o', 'n', ':', ' ',
    ]);
}

/// When the output of `yt-dlp` reports the destination `name` on a line of
/// its own, after text that reports no destination, the name read out of it
/// is `name`.
pub proof fn lemma_reported_filename(before: Seq<char>, name: Seq<char>, after: Seq<char>)
    requires
        !contains_seq(before, destination_marker()),
        !contains_seq(name, destination_marker()),
        !name.contains('\n'),
    ensures
        reported_filename(before + destination_marker() + name + seq!['\n'] + after) == Some(
            name,
        ),
{
    reveal_strlit("\n");
    lemma_marker_chars();
    let marker = destination_marker();
    let s = before + marker + name + seq!['\n'] + after;
    let b = before.len() as int;
    let m = marker.len() as int;
    let n = name.len() as int;
    lemma_find_from(before, marker, 0);
    lemma_find_from(name, marker, 0);
    assert forall|j: int| 0 <= j < b implies !occurs_at(s, marker, j) by {
        if occurs_at(s, marker, j) {
            let w = s.subrange(j, j + m);
            if j + m <= b {
                assert(before.subrange(j, j + m) =~= w);
                assert(occurs_at(before, marker, j));
            } else {
                assert(w[b - j] == s[b]);
                assert(s[b] == marker[0]);
            }
        }
    }
    assert(s.subrange(b, b + m) =~= marker);
    lemma_piece_until(s, marker, 0, b);
    lemma_find_from(s, marker, b + m);
    let e = match find_from(s, marker, b + m) {
        Some(q) => q,
        None => s.len() as int,
    };
    assert forall|j: int| b + m <= j <= b + m + n implies !occurs_at(s, marker, j) by {
        if occurs_at(s, marker, j) {
            let w = s.subrange(j, j + m);
            if j + m <= b + m + n {
                assert(name.subrange(j - b - m, j - b) =~= w);
                assert(occurs_at(name, marker, j - b - m));
            } else {
                assert(w[b + m + n - j] == s[b + m + n]);
                assert(s[b + m + n] == '\n');
            }
        }
    }
    assert(e > b + m + n);
    lemma_piece_until(s, marker, b + m, e);
    let piece = s.subrange(b + m, e);
    assert(split(s, marker)[1] == piece);
    let newline = "\n"@;
    assert(newline =~= seq!['\n']);
    assert forall|j: int| 0 <= j < n implies !occurs_at(piece, newline, j) by {
        lemma_occurs_single(piece, '\n', j);
        assert(piece[j] == name[j]);
    }
    lemma_occurs_single(piece, '\n', n);
    lemma_piece_until(piece, newline, 0, n);
    assert(piece.subrange(0, n) =~= name);
}

/// The download command is `yt-dlp -ix ` followed by the whole link,
/// character for character, whatever the link holds.
pub proof fn lemma_download_command_keeps_link(link: Seq<char>)
    ensures
        download_command_text(link).len() == 11 + link.len(),
        download_command_text(link).take(11) == seq!['y', 't', '-', 'd', 'l', 'p', ' ', '-', 'i', 'x', ' '],
        download_command_text(link).skip(11) == link,
        forall|i: int| 0 <= i < link.len() ==> #[trigger] download_command_text(link)[11 + i] == link[i],
{
    reveal_strlit("yt-dlp -ix ");
    let prefix = "yt-dlp -ix "@;
    assert(prefix =~= seq!['y', 't', '-', 'd', 'l', 'p', ' ', '-', 'i', 'x', ' ']);
    let c = download_command_text(link);
    assert(c.take(11) =~= prefix);
    assert(c.skip(11) =~= link);
}

/// The planned timestamps file is `timestamps-`, then the whole video id,
/// character for character, then `.txt`.
pub proof fn lemma_timestamps_file_keeps_id(id: Seq<char>)
    ensures
        timestamps_file_of(id).len() == id.len() + 15,
        timestamps_file_of(id).take(11) == seq![
            't', 'i', 'm', 'e', 's', 't', 'a', 'm', 'p', 's', '-',
        ],
        timestamps_file_of(id).subrange(11, 11 + id.len() as int) == id,
        timestamps_file_of(id).skip(11 + id.len() as int) == seq!['.', 't', 'x', 't'],
{
    reveal_strlit("timestamps-");
    reveal_strlit(".txt");
    let t = timestamps_file_of(id);
    assert("timestamps-"@ =~= seq!['t', 'i', 'm', 'e', 's', 't', 'a', 'm', 'p', 's', '-']);
    assert(".txt"@ =~= seq!['.', 't', 'x', 't']);
    assert(t.take(11) =~= "timestamps-"@);
    assert(t.subrange(11, 11 + id.len() as int) =~= id);
    assert(t.skip(11 + id.len() as int) =~= ".txt"@);
}

/// The new name of a download is the whole video id, a dot, and the whole
/// extension.
pub proof fn lemma_renamed_file_keeps_parts(id: Seq<char>, ext: Seq<char>)
    ensures
        renamed_file(id, ext).len() == id.len() + 1 + ext.len(),
        renamed_file(id, ext).take(id.len() as int) == id,
        renamed_file(id, ext)[id.len() as int] == '.',
        renamed_file(id, ext).skip(id.len() as int + 1) == ext,
{
    reveal_strlit(".");
    let r = renamed_file(id, ext);
    assert("."@ =~= seq!['.']);
    assert(r.take(id.len() as int) =~= id);
    assert(r.skip(id.len() as int + 1) =~= ext);
}

/// The timestamps file of a download named the way `yt-dlp` names it,
/// `TITLE [ID].EXT`, holds the whole id.
pub proof fn lemma_timestamps_file_of_download_name(title: Seq<char>, id: Seq<char>, ext: Seq<char>)
    requires
        !id.contains('['),
        !id.contains('.'),
        !ext.contains('['),
        !ext.contains(']'),
        !ext.contains('.'),
    ensures
        video_id_parts(title + seq!['['] + id + seq![']', '.'] + ext) matches Some((i, e)) && {
            &&& timestamps_file_of(i).subrange(11, 11 + id.len() as int) == id
            &&& timestamps_file_of(i).len() == id.len() + 15
            &&& renamed_file(i, e).take(id.len() as int) == id
            &&& renamed_file(i, e).skip(id.len() as int + 1) == ext
        },
{
    lemma_video_id_of_download_name(title, id, ext);
    lemma_timestamps_file_keeps_id(id);
    lemma_renamed_file_keeps_parts(id, ext);
}

} // verus!
