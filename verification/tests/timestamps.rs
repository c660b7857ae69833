use ytsplit::split::{
    columns_of_lowered_line, construct_command, lists_default_input, parse_file, read_timestamps,
    split_commands, strip_path_quotes, FileContents, TimestampError,
};
use ytsplit::text::chars_of;

fn strings(items: &[&str]) -> Vec<String> {
    items.iter().map(|s| s.to_string()).collect()
}

fn parsed(text: &str) -> FileContents {
    let f = match read_timestamps(text.to_string()) {
        Ok(f) => f,
        Err(e) => panic!("unexpected error {:?}", e),
    };
    let g = parse_file(text.to_string());
    assert_eq!(f.format, g.format);
    assert_eq!(f.data, g.data);
    f
}

fn error_of(text: &str) -> TimestampError {
    match read_timestamps(text.to_string()) {
        Ok(f) => panic!("unexpected success {:?}", f.data),
        Err(e) => e,
    }
}

#[test]
fn default_format_is_name_start_end() {
    let f = parsed("intro.mp3 0:00 1:30\noutro.mp3 1:30 3:00\n");
    assert_eq!(f.format, strings(&["name", "start", "end"]));
    assert_eq!(
        f.data,
        vec![strings(&["intro.mp3", "0:00", "1:30"]), strings(&["outro.mp3", "1:30", "3:00"])]
    );
}

#[test]
fn name_first_trims_space_before_times() {
    let f = parsed("a b.mp3   0:00 0:10\nc.mp3 0:10 0:20");
    assert_eq!(f.data[0], strings(&["a b.mp3", "0:00", "0:10"]));
    assert_eq!(f.data[1], strings(&["c.mp3", "0:10", "0:20"]));
}

#[test]
fn declared_start_end_name() {
    let f = parsed("start end name\n0:00 1:00 First Song\n1:00 2:00 Second Song\n");
    assert_eq!(f.format, strings(&["start", "end", "name"]));
    assert_eq!(
        f.data,
        vec![
            strings(&["0:00", "1:00", "First Song"]),
            strings(&["1:00", "2:00", "Second Song"])
        ]
    );
}

#[test]
fn declared_name_start_end() {
    let f = parsed("name start end\nsong.mp3 0 10\nother.mp3 10 20\n");
    assert_eq!(f.format, strings(&["name", "start", "end"]));
    assert_eq!(f.data[1], strings(&["other.mp3", "10", "20"]));
}

#[test]
fn declared_start_name_end() {
    let f = parsed("start name end\n0:00 my song.mp3 1:00\n1:00 next.mp3 2:00\n");
    assert_eq!(f.format, strings(&["start", "name", "end"]));
    assert_eq!(f.data[0], strings(&["0:00", "my song.mp3", "1:00"]));
    assert_eq!(f.data[1], strings(&["1:00", "next.mp3", "2:00"]));
}

#[test]
fn format_line_is_read_case_insensitively() {
    let f = parsed("END NAME START\n1 a.mp3 0\n2 b.mp3 1\n");
    assert_eq!(f.format, strings(&["end", "name", "start"]));
    assert_eq!(f.data[0], strings(&["1", "a.mp3", "0"]));
}

#[test]
fn format_words_count_in_order_of_first_appearance() {
    let f = parsed("Start time, name name, End time\n0 track.mp3 5\n5 track2.mp3 9\n");
    assert_eq!(f.format, strings(&["start", "name", "end"]));
    let g = parsed("name end start name\nx.mp3 2 1\ny.mp3 3 2\n");
    assert_eq!(g.format, strings(&["name", "end", "start"]));
}

#[test]
fn first_line_without_all_words_is_a_row() {
    let f = parsed("start.mp3 0 1\nend.mp3 1 2\n");
    assert_eq!(f.format, strings(&["name", "start", "end"]));
    assert_eq!(f.data.len(), 2);
}

#[test]
fn empty_lines_are_skipped() {
    let f = parsed("\n\nstart end name\n\n0 1 a\n\n1 2 b\n\n");
    assert_eq!(f.data, vec![strings(&["0", "1", "a"]), strings(&["1", "2", "b"])]);
}

#[test]
fn error_empty_file() {
    assert_eq!(error_of(""), TimestampError::EmptyFile);
    assert_eq!(error_of("\n\n\n"), TimestampError::EmptyFile);
}

#[test]
fn error_bad_format_line() {
    assert_eq!(error_of("starting ending names\n0 1 a\n1 2 b\n"), TimestampError::BadFormatLine);
}

#[test]
fn error_too_few_lines() {
    assert_eq!(error_of("start end name\n0 1 a\n"), TimestampError::TooFewLines);
    assert_eq!(error_of("a.mp3 0 1\n"), TimestampError::TooFewLines);
}

#[test]
fn error_missing_extension() {
    assert_eq!(error_of("song 0 1\nsong2 1 2\n"), TimestampError::MissingExtension);
}

#[test]
fn error_missing_times() {
    assert_eq!(error_of("a.mp3 0\nb.mp3 1 2\n"), TimestampError::MissingTimes);
}

#[test]
fn error_missing_field() {
    assert_eq!(error_of("start end name\n0 1 a\n0-1\n"), TimestampError::MissingField);
    assert_eq!(error_of("start end name\n0 1\n1 2 b\n"), TimestampError::MissingField);
    assert_eq!(error_of("start name end\n0 song 1\n1 b.mp3 2\n"), TimestampError::MissingField);
}

#[test]
fn first_bad_line_decides_the_error() {
    assert_eq!(error_of("a.mp3 0\nsong 1 2\n"), TimestampError::MissingTimes);
    assert_eq!(error_of("song 1 2\na.mp3 0\n"), TimestampError::MissingExtension);
}

#[test]
fn columns_of_lowered_lines() {
    assert_eq!(columns_of_lowered_line(&chars_of("name start end")), Ok(Some(strings(&["name", "start", "end"]))));
    assert_eq!(columns_of_lowered_line(&chars_of("start, end and name")), Err(TimestampError::BadFormatLine));
    assert_eq!(columns_of_lowered_line(&chars_of("start end nam")), Ok(None));
    assert_eq!(columns_of_lowered_line(&chars_of("startend name")), Err(TimestampError::BadFormatLine));
    assert_eq!(columns_of_lowered_line(&chars_of("Start End Name")), Ok(None));
    assert_eq!(columns_of_lowered_line(&chars_of("end x name y start end")), Ok(Some(strings(&["end", "name", "start"]))));
}

#[test]
fn command_text() {
    let c = construct_command(
        &"/music/in.opus".to_string(),
        &"Track 1.mp3".to_string(),
        &"0:00".to_string(),
        &"1:30".to_string(),
    );
    assert_eq!(c, "ffmpeg -i /music/in.opus -acodec libmp3lame -ss 0:00 -to 1:30 file:\"Track 1.mp3\" -y");
}

#[test]
fn one_command_per_row_in_any_column_order() {
    let f = parsed("end name start\n1:00 a.mp3 0:00\n2:00 b.mp3 1:00\n");
    let commands = split_commands(&f, &"in.opus".to_string()).unwrap();
    assert_eq!(
        commands,
        strings(&[
            "ffmpeg -i in.opus -acodec libmp3lame -ss 0:00 -to 1:00 file:\"a.mp3\" -y",
            "ffmpeg -i in.opus -acodec libmp3lame -ss 1:00 -to 2:00 file:\"b.mp3\" -y",
        ])
    );
}

#[test]
fn parsed_files_are_well_formed() {
    for text in [
        "a.mp3 0 1\nb.mp3 1 2\nc.mp3 2 3\n",
        "start end name\n0 1 x\n1 2 y\n",
        "name end start\nq.mp3 9 8\nr.mp3 7 6\n",
        "start name end\n0 s.mp3 1\n1 t.mp3 2\n",
    ] {
        let f = parsed(text);
        assert_eq!(f.format.len(), 3);
        for w in ["start", "end", "name"] {
            assert!(f.format.iter().any(|x| x == w));
        }
        assert!(f.data.iter().all(|row| row.len() == 3));
        let commands = split_commands(&f, &"in".to_string()).unwrap();
        assert_eq!(commands.len(), f.data.len());
    }
}

#[test]
fn split_commands_need_all_columns_and_full_rows() {
    let missing = FileContents { format: strings(&["start", "name"]), data: vec![] };
    assert!(split_commands(&missing, &"in".to_string()).is_none());
    let short = FileContents {
        format: strings(&["start", "end", "name"]),
        data: vec![strings(&["0", "1", "a"]), strings(&["1", "2"])],
    };
    assert!(split_commands(&short, &"in".to_string()).is_none());
    let empty = FileContents { format: strings(&["name", "end", "start"]), data: vec![] };
    assert_eq!(split_commands(&empty, &"in".to_string()).unwrap().len(), 0);
}

#[test]
fn path_quotes_are_stripped() {
    assert_eq!(strip_path_quotes("\"/home/user/input.opus\""), "/home/user/input.opus");
    assert_eq!(strip_path_quotes("a\"b\"c\"d"), "abc\"d");
    assert_eq!(strip_path_quotes("plain"), "plain");
}

#[test]
fn default_input_is_found_in_listing() {
    assert!(lists_default_input(&strings(&["./a.txt", "./input.opus"])));
    assert!(!lists_default_input(&strings(&["./input.opus.bak", "input.opus"])));
    assert!(!lists_default_input(&vec![]));
}
