use ytsplit::cli::{
    download_command, get_cpu_default, playlist_command, rename_command, split_input_name,
};
use ytsplit::download::Download;
use ytsplit::playlist::Download as PlaylistDownload;
use ytsplit::text::{chars_of, split_chars, string_of, trim_start_chars, white_space};

#[test]
fn default_thread_count_is_five() {
    assert_eq!(get_cpu_default(), 5);
}

#[test]
fn commands_pass_results_on() {
    let file = download_command(Download::Success { filename: "a [b].opus".to_string() });
    assert_eq!(file, "a [b].opus");
    let files = playlist_command(PlaylistDownload::Success { filenames: vec!["x".to_string()] });
    assert_eq!(files, vec!["x".to_string()]);
    rename_command("rename.txt".to_string());
}

#[test]
fn split_input_choice() {
    assert_eq!(split_input_name(true, "other.opus".to_string()), "input.opus");
    assert_eq!(split_input_name(false, "other.opus".to_string()), "other.opus");
}

#[test]
fn white_space_matches_std() {
    for u in 0u32..0x110000 {
        if let Some(c) = char::from_u32(u) {
            assert_eq!(white_space(c), c.is_whitespace(), "at {:#x}", u);
        }
    }
}

#[test]
fn text_round_trip_and_split() {
    let s = "héllo wörld  x";
    let chars = chars_of(s);
    assert_eq!(string_of(&chars), s);
    let pieces = split_chars(&chars, &[' ']);
    let texts: Vec<String> = pieces.iter().map(|p| string_of(p)).collect();
    assert_eq!(texts, s.split(' ').map(|x| x.to_string()).collect::<Vec<_>>());
    let t = trim_start_chars(&chars_of("\u{3000}\t x y"));
    assert_eq!(string_of(&t), "\u{3000}\t x y".trim_start());
}

#[test]
fn split_matches_std_on_multichar_patterns() {
    for (s, p) in [("a.mp3 b.mp3 c", ".mp3"), (".mp3.mp3", ".mp3"), ("abc", "abcd"), ("", "x"), ("xxx", "xx")] {
        let pieces = split_chars(&chars_of(s), &chars_of(p));
        let texts: Vec<String> = pieces.iter().map(|q| string_of(q)).collect();
        assert_eq!(texts, s.split(p).map(|x| x.to_string()).collect::<Vec<_>>(), "{} / {}", s, p);
    }
}
