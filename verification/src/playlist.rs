//! Downloading a playlist: the files that the `yt-dlp` run reports.
use vstd::prelude::*;
use vstd::utf8::decode_utf8;
use crate::download::{
    destination_marker, filename_from_output, lemma_split_not_empty, output_filename,
};
use crate::text::{chars_of, decode_utf8_string, seqs_of, split, split_chars, string_of, texts_of};

verus! {

/// How a playlist download ended.
pub enum Download {
    Failed,
    Success { filenames: Vec<String> },
}

/// The names of the audio files that the output `text` of `yt-dlp` reports,
/// in order: for each destination marker, what follows it up to the end of
/// that line (or up to the next marker, if that comes first).
pub open spec fn reported_filenames(text: Seq<char>) -> Seq<Seq<char>> {
    let pieces = split(text, destination_marker());
    Seq::new((pieces.len() - 1) as nat, |i: int| split(pieces[i + 1], "\n"@)[0])
}

/// Reads the names of the downloaded files out of the output of `yt-dlp`,
/// one per destination marker, in order.  The output must be UTF-8 and
/// report at least one destination.
pub fn parse_filenames(command_output: Vec<u8>) -> (filenames: Vec<String>)
    requires
        output_filename(command_output@) is Some,
    ensures
        texts_of(filenames@) == reported_filenames(decode_utf8(command_output@)),
{
    let ghost bytes = command_output@;
    let text = decode_utf8_string(command_output).unwrap();
    let chars = chars_of(text.as_str());
    let marker = chars_of("[ExtractAudio] Destination: ");
    let newline = chars_of("\n");
    proof {
        reveal_strlit("[ExtractAudio] Destination: ");
        reveal_strlit("\n");
    }
    let pieces = split_chars(chars.as_slice(), marker.as_slice());
    let ghost expected = reported_filenames(text@);
    let mut names: Vec<String> = Vec::new();
    let mut i: usize = 1;
    while i < pieces.len()
        invariant
            1 <= i <= pieces@.len(),
            text@ == decode_utf8(bytes),
            newline@ == "\n"@,
            "\n"@.len() > 0,
            seqs_of(pieces@) == split(text@, destination_marker()),
            expected == reported_filenames(text@),
            names@.len() == i - 1,
            forall|j: int| 0 <= j < i - 1 ==> #[trigger] names@[j]@ == expected[j],
        decreases pieces@.len() - i,
    {
        let lines = split_chars(pieces[i].as_slice(), newline.as_slice());
        proof {
            lemma_split_not_empty(pieces@[i as int]@, "\n"@);
        }
        let name = string_of(lines[0].as_slice());
        names.push(name);
        i = i + 1;
    }
    assert(texts_of(names@) =~= expected);
    names
}

/// How a finished playlist run of `yt-dlp` ended, from its exit code and its
/// output: a success carries the names of all the files the output reports,
/// any other code is a failure.  `None` for a successful run whose output is
/// not UTF-8 or reports no destination.
pub fn playlist_outcome(exit_code: i32, stdout: Vec<u8>) -> (r: Option<Download>)
    ensures
        exit_code != 0 ==> r matches Some(Download::Failed),
        exit_code == 0 ==> match output_filename(stdout@) {
            Some(_) => r matches Some(Download::Success { filenames }) && texts_of(filenames@)
                == reported_filenames(decode_utf8(stdout@)),
            None => r is None,
        },
{
    if exit_code == 0 {
        let checked = stdout.clone();
        match filename_from_output(checked) {
            Some(_) => Some(Download::Success { filenames: parse_filenames(stdout) }),
            None => None,
        }
    } else {
        Some(Download::Failed)
    }
}

} // verus!
