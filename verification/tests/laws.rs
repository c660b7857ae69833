use ytsplit::download::{filename_from_output, plan_rename};
use ytsplit::split::parse_file;

#[test]
fn law_video_id_of_download_name() {
    for (title, id, ext) in [("Title", "abc123", "opus"), ("a [b] c.d", "Xy_-9", "m4a"), ("", "", "")] {
        let name = format!("{}[{}].{}", title, id, ext);
        let plan = plan_rename(&name).unwrap();
        assert_eq!(plan.directory, id);
        assert_eq!(plan.new_name, format!("{}.{}", id, ext));
    }
}

#[test]
fn law_reported_filename() {
    for (before, name, after) in [("log line\n", "Song (live).opus", "Deleting x"), ("", "", ""), ("x", "ä ö.m4a", "\n\n")] {
        let text = format!("{}[ExtractAudio] Destination: {}\n{}", before, name, after);
        assert_eq!(filename_from_output(text.into_bytes()), Some(name.to_string()));
    }
}

#[test]
fn law_declared_format_and_rows() {
    let words = ["start", "end", "name"];
    let field = |w: &str| match w {
        "start" => "0:00",
        "end" => "0:45",
        _ => "t.mp3",
    };
    for (a, b, c) in [(0, 1, 2), (0, 2, 1), (1, 0, 2), (1, 2, 0), (2, 0, 1), (2, 1, 0)] {
        let order = [words[a], words[b], words[c]];
        let row = format!("{} {} {}", field(order[0]), field(order[1]), field(order[2]));
        let text = format!("{} {} {}\n{}\n{}\n", order[0], order[1], order[2], row, row);
        let f = parse_file(text);
        assert_eq!(f.format, order.iter().map(|w| w.to_string()).collect::<Vec<_>>());
        let expected: Vec<String> = order.iter().map(|w| field(w).to_string()).collect();
        assert_eq!(f.data, vec![expected.clone(), expected]);
    }
}

#[test]
fn law_row_name_third() {
    let f = parse_file("start end name\n0:00 0:30 A name with spaces\n0:30 1:00 x\n".to_string());
    assert_eq!(f.data[0], vec!["0:00".to_string(), "0:30".to_string(), "A name with spaces".to_string()]);
}

#[test]
fn law_row_name_first() {
    let f = parse_file("My.Title.mp3 0:00 0:30\nNext.mp3 0:30 1:00 extra\n".to_string());
    assert_eq!(f.data[0], vec!["My.Title.mp3".to_string(), "0:00".to_string(), "0:30".to_string()]);
    assert_eq!(f.data[1], vec!["Next.mp3".to_string(), "0:30".to_string(), "1:00".to_string()]);
}

#[test]
fn law_row_name_second() {
    let f = parse_file("start name end\n0:00 Live at.mp3x 2.mp3 1:00\n1:00 b.mp3 2:00\n".to_string());
    assert_eq!(f.data[0], vec!["0:00".to_string(), "Live at.mp3x 2.mp3".to_string(), "1:00".to_string()]);
}

fn rows(items: &[[&str; 3]]) -> Vec<Vec<String>> {
    items.iter().map(|r| r.iter().map(|s| s.to_string()).collect()).collect()
}

#[test]
fn law_file_reads_back() {
    let data = rows(&[["0:00", "3:12", "Opening Theme"], ["3:12", "7:45", "Second, Part 2"], ["7:45", "9:00", "End"]]);
    let mut text = String::from("start end name\n");
    for r in &data {
        text.push_str(&format!("{} {} {}\n", r[0], r[1], r[2]));
    }
    let f = parse_file(text);
    assert_eq!(f.format, vec!["start".to_string(), "end".to_string(), "name".to_string()]);
    assert_eq!(f.data, data);
}

#[test]
fn law_file_without_format_line_reads_back() {
    let data = rows(&[["Intro.mp3", "0:00", "0:30"], ["Main Part.mp3", "0:30", "5:00"]]);
    let mut text = String::new();
    for r in &data {
        text.push_str(&format!("{} {} {}\n", r[0], r[1], r[2]));
    }
    let f = parse_file(text);
    assert_eq!(f.format, vec!["name".to_string(), "start".to_string(), "end".to_string()]);
    assert_eq!(f.data, data);
}

#[test]
fn law_empty_lines_ignored() {
    let base = "start end name\n0 1 a\n1 2 b";
    let f = parse_file(base.to_string());
    for text in ["\nstart end name\n0 1 a\n1 2 b", "start end name\n\n0 1 a\n\n\n1 2 b\n\n", "start end name\n0 1 a\n1 2 b\n"] {
        let g = parse_file(text.to_string());
        assert_eq!(f.format, g.format);
        assert_eq!(f.data, g.data);
    }
}

#[test]
fn law_format_line_case_ignored() {
    let f = parse_file("name start end\na.mp3 0 1\nb.mp3 1 2".to_string());
    for header in ["Name Start End", "NAME START END", "nAmE sTaRt EnD"] {
        let g = parse_file(format!("{}\na.mp3 0 1\nb.mp3 1 2", header));
        assert_eq!(f.format, g.format);
        assert_eq!(f.data, g.data);
    }
}

#[test]
fn law_reported_filename_with_brackets() {
    let text = "[youtube] [info] x\n[ExtractAudio] Destination: Song [id].opus\nmore";
    assert_eq!(filename_from_output(text.as_bytes().to_vec()), Some("Song [id].opus".to_string()));
}

#[test]
fn law_row_name_first_with_fractional_times() {
    let f = parse_file("a.b.mp3 0:00.5 1:30.25\nc.mp3 1:30.25 2:00".to_string());
    assert_eq!(f.data[0], vec!["a.b.mp3".to_string(), "0:00.5".to_string(), "1:30.25".to_string()]);
}
