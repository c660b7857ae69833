use ytsplit::download::{
    craft_command, download_outcome, filename_from_output, find_video_id, parse_filename,
    plan_rename, Download,
};
use ytsplit::playlist::{parse_filenames, playlist_outcome, Download as PlaylistDownload};

const OUTPUT: &str = "[youtube] abc: Downloading webpage\n[ExtractAudio] Destination: My Song [dQw4w9WgXcQ].opus\nDeleting original file My Song [dQw4w9WgXcQ].webm\n";

#[test]
fn download_command_text() {
    assert_eq!(craft_command(&"xm3YgoEiEDc".to_string()), "yt-dlp -ix xm3YgoEiEDc");
    assert_eq!(craft_command(&"".to_string()), "yt-dlp -ix ");
}

#[test]
fn filename_is_read_from_output() {
    assert_eq!(parse_filename(OUTPUT.as_bytes().to_vec()), "My Song [dQw4w9WgXcQ].opus");
    assert_eq!(
        parse_filename("[ExtractAudio] Destination: last.opus".as_bytes().to_vec()),
        "last.opus"
    );
}

#[test]
fn filename_stops_at_a_second_destination() {
    let out = "[ExtractAudio] Destination: a.opus[ExtractAudio] Destination: b.opus\n";
    assert_eq!(parse_filename(out.as_bytes().to_vec()), "a.opus");
}

#[test]
fn filename_needs_utf8_and_destination() {
    assert!(filename_from_output(vec![0xff, 0xfe, 0x41]).is_none());
    assert!(filename_from_output("no destination here".as_bytes().to_vec()).is_none());
    assert_eq!(
        filename_from_output("Destination: x\n[ExtractAudio] Destination: é.opus\n".as_bytes().to_vec()),
        Some("é.opus".to_string())
    );
}

#[test]
fn outcome_of_a_download() {
    match download_outcome(0, OUTPUT.as_bytes().to_vec()) {
        Some(Download::Success { filename }) => assert_eq!(filename, "My Song [dQw4w9WgXcQ].opus"),
        _ => panic!("expected success"),
    }
    assert!(matches!(download_outcome(1, OUTPUT.as_bytes().to_vec()), Some(Download::Failed)));
    assert!(matches!(download_outcome(2, vec![]), Some(Download::Failed)));
    assert!(download_outcome(0, b"nothing".to_vec()).is_none());
}

#[test]
fn video_id_of_a_download() {
    assert_eq!(
        find_video_id("My Song [dQw4w9WgXcQ].opus".to_string()),
        ("dQw4w9WgXcQ".to_string(), "opus".to_string())
    );
    assert_eq!(
        find_video_id("a.b [c] [xyz].m4a".to_string()),
        ("xyz".to_string(), "m4a".to_string())
    );
    assert_eq!(find_video_id("t [a.b].c".to_string()), ("a".to_string(), "b".to_string()));
}

#[test]
fn rename_plan() {
    let plan = plan_rename(&"My Song [dQw4w9WgXcQ].opus".to_string()).unwrap();
    assert_eq!(plan.directory, "dQw4w9WgXcQ");
    assert_eq!(plan.timestamps_file, "timestamps-dQw4w9WgXcQ.txt");
    assert_eq!(plan.timestamps_contents, "start end name");
    assert_eq!(plan.new_name, "dQw4w9WgXcQ.opus");
}

#[test]
fn rename_plan_needs_an_id() {
    assert!(plan_rename(&"no brackets.opus".to_string()).is_none());
    assert!(plan_rename(&"open [only.opus".to_string()).is_none());
    assert!(plan_rename(&"title [id]".to_string()).is_none());
}

const PLAYLIST: &str = "[download] Item 1 of 2\n[ExtractAudio] Destination: One [a1].opus\n[download] Item 2 of 2\n[ExtractAudio] Destination: Two [b2].opus\nDone\n";

#[test]
fn playlist_names_are_read_in_order() {
    assert_eq!(parse_filenames(OUTPUT.as_bytes().to_vec()), vec!["My Song [dQw4w9WgXcQ].opus".to_string()]);
    assert_eq!(
        parse_filenames(PLAYLIST.as_bytes().to_vec()),
        vec!["One [a1].opus".to_string(), "Two [b2].opus".to_string()]
    );
    assert_eq!(
        parse_filenames("[ExtractAudio] Destination: x[ExtractAudio] Destination: y".as_bytes().to_vec()),
        vec!["x".to_string(), "y".to_string()]
    );
    match playlist_outcome(0, PLAYLIST.as_bytes().to_vec()) {
        Some(PlaylistDownload::Success { filenames }) => {
            assert_eq!(filenames, vec!["One [a1].opus".to_string(), "Two [b2].opus".to_string()])
        }
        _ => panic!("expected success"),
    }
    assert!(matches!(playlist_outcome(3, vec![]), Some(PlaylistDownload::Failed)));
    assert!(playlist_outcome(0, vec![0xc0]).is_none());
}
