//! The timestamps file: its format line, its rows, and the `ffmpeg` commands
//! that cut the input audio into one file per row.
use vstd::prelude::*;
use crate::text::{
    chars_of, contains_seq, drop_empty, drop_empty_pieces, find_chars, is_white_space, joined,
    lemma_drop_empty_first, lemma_find_from, lemma_occurs_single, lemma_piece_until,
    lemma_split_once_single, lowercase, occurs_at, prefix_contains, same_chars, seqs_of,
    skip_white_space, split, split_chars, split_from, split_once, split_once_chars, string_of,
    strings_of, texts_of, to_lowercase, trim_start, trim_start_chars, join_lines,
    lemma_split_joined_lines, lemma_drop_empty_keeps, lemma_split_empty, lemma_split_concat,
    lemma_drop_empty_concat, lemma_join_lines_ends_with_break,
};

verus! {

/// Why a timestamps file cannot be read.
#[derive(Debug, Clone, Copy, PartialEq, Eq, Structural)]
pub enum TimestampError {
    /// The file holds no non-empty line.
    EmptyFile,
    /// The first line names `start`, `end` and `name` somewhere, but not as
    /// three space-separated words.
    BadFormatLine,
    /// Fewer than two timestamp lines follow the format line.
    TooFewLines,
    /// A line of a file whose first column is the name has no `.mp3`.
    MissingExtension,
    /// A line of a file whose first column is the name lacks a time after the
    /// name.
    MissingTimes,
    /// A line lacks a space or `.mp3 ` where its format puts one.
    MissingField,
}

/// The contents of a timestamps file: the order of its columns (a
/// permutation of `start`, `end` and `name`) and its rows, each in that order.
pub struct FileContents {
    pub format: Vec<String>,
    pub data: Vec<Vec<String>>,
}

/// The contents of a timestamps file, as text.
pub struct SpecFileContents {
    pub format: Seq<Seq<char>>,
    pub data: Seq<Seq<Seq<char>>>,
}

/// The rows of `data`, as text.
pub open spec fn rows_of(data: Seq<Vec<String>>) -> Seq<Seq<Seq<char>>> {
    data.map_values(|row: Vec<String>| texts_of(row@))
}

impl View for FileContents {
    type V = SpecFileContents;

    open spec fn view(&self) -> SpecFileContents {
        SpecFileContents { format: texts_of(self.format@), data: rows_of(self.data@) }
    }
}

/// How the rows of a timestamps file are laid out.
pub enum ParseMethod {
    /// No format line: each row is `name start end`.
    NONE,
    /// The columns named by the format line, and whether the file has one.
    Format((Vec<String>, bool)),
}

/// The column word of the start time.
pub open spec fn start_word() -> Seq<char> {
    "start"@
}

/// The column word of the end time.
pub open spec fn end_word() -> Seq<char> {
    "end"@
}

/// The column word of the track name.
pub open spec fn name_word() -> Seq<char> {
    "name"@
}

/// The extension every track name ends with.
pub open spec fn mp3() -> Seq<char> {
    ".mp3"@
}

/// `t` is one of the three column words.
pub open spec fn is_keyword(t: Seq<char>) -> bool {
    t == start_word() || t == end_word() || t == name_word()
}

/// The keywords `start`, `end` and `name` among `tokens`, each once, in the
/// order of their first occurrence.
pub open spec fn first_keywords(tokens: Seq<Seq<char>>) -> Seq<Seq<char>>
    decreases tokens.len(),
{
    if tokens.len() == 0 {
        seq![]
    } else {
        let prev = tokens.drop_last();
        if is_keyword(tokens.last()) && !prev.contains(tokens.last()) {
            first_keywords(prev).push(tokens.last())
        } else {
            first_keywords(prev)
        }
    }
}

/// The non-empty lines of a file.
pub open spec fn file_lines(contents: Seq<char>) -> Seq<Seq<char>> {
    drop_empty(split(contents, "\n"@))
}

/// A (lowercased) first line is read as a format line when `start`, `end`
/// and `name` all occur in it.
pub open spec fn mentions_all_columns(lower: Seq<char>) -> bool {
    contains_seq(lower, start_word()) && contains_seq(lower, end_word()) && contains_seq(
        lower,
        name_word(),
    )
}

/// The column order that a file's first line declares, `None` when the first
/// line is no format line.
pub open spec fn spec_file_format(contents: Seq<char>) -> Result<
    Option<Seq<Seq<char>>>,
    TimestampError,
> {
    let lines = file_lines(contents);
    if lines.len() == 0 {
        Err(TimestampError::EmptyFile)
    } else {
        columns_of_line(lowercase(lines[0]))
    }
}

/// The column order that a lowercased first line declares: `None` when it
/// does not mention all of `start`, `end` and `name`; the order of their
/// first appearance as space-separated words when all three so appear.
pub open spec fn columns_of_line(lower: Seq<char>) -> Result<
    Option<Seq<Seq<char>>>,
    TimestampError,
> {
    if mentions_all_columns(lower) {
        let found = first_keywords(split(lower, " "@));
        if found.len() == 3 {
            Ok(Some(found))
        } else {
            Err(TimestampError::BadFormatLine)
        }
    } else {
        Ok(None)
    }
}

/// The column order of a file without a format line.
pub open spec fn default_format() -> Seq<Seq<char>> {
    seq![name_word(), start_word(), end_word()]
}

/// A row `NAME.mp3 START END`: the name runs to the first `.mp3`, the
/// times follow after leading white space, separated by single spaces.
pub open spec fn row_name_first(line: Seq<char>) -> Result<Seq<Seq<char>>, TimestampError> {
    let temp = split(line, mp3());
    if temp.len() < 2 {
        Err(TimestampError::MissingExtension)
    } else {
        let rest = split(trim_start(temp[1]), " "@);
        if rest.len() < 2 {
            Err(TimestampError::MissingTimes)
        } else {
            Ok(seq![temp[0] + mp3(), rest[0], rest[1]])
        }
    }
}

/// A row `FIRST NAME.mp3 THIRD`.
pub open spec fn row_name_second(line: Seq<char>) -> Result<Seq<Seq<char>>, TimestampError> {
    match split_once(line, " "@) {
        None => Err(TimestampError::MissingField),
        Some((first, second)) => {
            let temp = split(second, ".mp3 "@);
            if temp.len() < 2 {
                Err(TimestampError::MissingField)
            } else {
                Ok(seq![first, temp[0] + mp3(), temp[1]])
            }
        },
    }
}

/// A row `FIRST SECOND NAME`: the name is all that follows the second space.
pub open spec fn row_name_third(line: Seq<char>) -> Result<Seq<Seq<char>>, TimestampError> {
    match split_once(line, " "@) {
        None => Err(TimestampError::MissingField),
        Some((first, rest)) => match split_once(rest, " "@) {
            None => Err(TimestampError::MissingField),
            Some((second, name)) => Ok(seq![first, second, name]),
        },
    }
}

/// The column of a format that holds the name (3 when none does).
pub open spec fn name_column(format: Seq<Seq<char>>) -> int {
    if format.len() > 0 && format[0] == name_word() {
        0
    } else if format.len() > 1 && format[1] == name_word() {
        1
    } else if format.len() > 2 && format[2] == name_word() {
        2
    } else {
        3
    }
}

/// One line read as a row whose name stands in column `column`.
pub open spec fn parse_row(column: int, line: Seq<char>) -> Result<
    Seq<Seq<char>>,
    TimestampError,
> {
    if column == 0 {
        row_name_first(line)
    } else if column == 1 {
        row_name_second(line)
    } else {
        row_name_third(line)
    }
}

/// The lines read as rows, in order; the first line that cannot be read
/// decides the error.  No rows come of a format without a name column.
pub open spec fn parse_rows(column: int, lines: Seq<Seq<char>>) -> Result<
    Seq<Seq<Seq<char>>>,
    TimestampError,
>
    decreases lines.len(),
{
    if lines.len() == 0 || !(0 <= column <= 2) {
        Ok(seq![])
    } else {
        match parse_rows(column, lines.drop_last()) {
            Err(e) => Err(e),
            Ok(rows) => match parse_row(column, lines.last()) {
                Err(e) => Err(e),
                Ok(row) => Ok(rows.push(row)),
            },
        }
    }
}

/// What a timestamps file holds, or why it cannot be read.
pub open spec fn spec_parse_file(contents: Seq<char>) -> Result<SpecFileContents, TimestampError> {
    match spec_file_format(contents) {
        Err(e) => Err(e),
        Ok(declared) => {
            let format = match declared {
                Some(f) => f,
                None => default_format(),
            };
            let lines = if declared is Some {
                file_lines(contents).skip(1)
            } else {
                file_lines(contents)
            };
            if lines.len() < 2 {
                Err(TimestampError::TooFewLines)
            } else {
                match parse_rows(name_column(format), lines) {
                    Err(e) => Err(e),
                    Ok(rows) => Ok(SpecFileContents { format, data: rows }),
                }
            }
        },
    }
}

/// The keywords `start`, `end` and `name` among `tokens`, each once, in the
/// order of their first occurrence.
fn keywords_in_order(tokens: &Vec<Vec<char>>, start: &[char], end: &[char], name: &[char]) -> (r:
    Vec<Vec<char>>)
    requires
        start@ == start_word(),
        end@ == end_word(),
        name@ == name_word(),
    ensures
        seqs_of(r@) == first_keywords(seqs_of(tokens@)),
{
    let mut r: Vec<Vec<char>> = Vec::new();
    let mut i: usize = 0;
    while i < tokens.len()
        invariant
            start@ == start_word(),
            end@ == end_word(),
            name@ == name_word(),
            0 <= i <= tokens@.len(),
            seqs_of(r@) == first_keywords(seqs_of(tokens@).take(i as int)),
        decreases tokens@.len() - i,
    {
        let ghost all = seqs_of(tokens@);
        assert(all.take(i + 1).drop_last() =~= all.take(i as int));
        assert(all.take(i + 1).last() == tokens@[i as int]@);
        let t = tokens[i].as_slice();
        let keyword = same_chars(t, start) || same_chars(t, end) || same_chars(t, name);
        if keyword && !prefix_contains(tokens, i, t) {
            let ghost old_r = r@;
            r.push(tokens[i].clone());
            assert(seqs_of(r@) =~= seqs_of(old_r).push(tokens@[i as int]@));
        }
        i = i + 1;
    }
    assert(seqs_of(tokens@).take(tokens@.len() as int) =~= seqs_of(tokens@));
    r
}

/// The non-empty lines of `contents`.
fn lines_of(contents: &[char]) -> (r: Vec<Vec<char>>)
    ensures
        seqs_of(r@) == file_lines(contents@),
{
    let newline = chars_of("\n");
    proof {
        reveal_strlit("\n");
    }
    drop_empty_pieces(split_chars(contents, newline.as_slice()))
}

/// The column order that the lowercased first line `lower` declares: `None`
/// when it does not mention all of `start`, `end` and `name`; otherwise the
/// order in which those words first appear in it as space-separated words,
/// or `BadFormatLine` when they do not all appear as words.
pub fn columns_of_lowered_line(lower: &[char]) -> (r: Result<Option<Vec<String>>, TimestampError>)
    ensures
        match r {
            Ok(None) => columns_of_line(lower@) matches Ok(None),
            Ok(Some(format)) => columns_of_line(lower@) matches Ok(Some(f)) && f == texts_of(
                format@,
            ),
            Err(e) => columns_of_line(lower@) matches Err(e2) && e2 == e,
        },
{
    let start = chars_of("start");
    let end = chars_of("end");
    let name = chars_of("name");
    let has_format_line = find_chars(lower, start.as_slice(), 0).is_some() && find_chars(
        lower,
        end.as_slice(),
        0,
    ).is_some() && find_chars(lower, name.as_slice(), 0).is_some();
    if has_format_line {
        let space = chars_of(" ");
        proof {
            reveal_strlit(" ");
        }
        let tokens = split_chars(lower, space.as_slice());
        let found = keywords_in_order(&tokens, start.as_slice(), end.as_slice(), name.as_slice());
        if found.len() != 3 {
            return Err(TimestampError::BadFormatLine);
        }
        Ok(Some(strings_of(&found)))
    } else {
        Ok(None)
    }
}

/// A way of reading rows that matches a declared column order.
pub open spec fn method_matches(m: ParseMethod, declared: Option<Seq<Seq<char>>>) -> bool {
    match m {
        ParseMethod::NONE => declared is None,
        ParseMethod::Format((format, has_format)) => has_format && declared == Some(
            texts_of(format@),
        ),
    }
}

/// The column order of a timestamps file, or why it has none.
fn file_format(file_contents: &String) -> (r: Result<ParseMethod, TimestampError>)
    ensures
        match r {
            Ok(m) => spec_file_format(file_contents@) matches Ok(d) && method_matches(m, d),
            Err(e) => spec_file_format(file_contents@) matches Err(e2) && e2 == e,
        },
{
    let contents = chars_of(file_contents.as_str());
    let lines = lines_of(contents.as_slice());
    if lines.len() == 0 {
        return Err(TimestampError::EmptyFile);
    }
    let first = string_of(lines[0].as_slice());
    let lower_string = to_lowercase(first.as_str());
    let lower = chars_of(lower_string.as_str());
    match columns_of_lowered_line(lower.as_slice()) {
        Err(e) => Err(e),
        Ok(None) => Ok(ParseMethod::NONE),
        Ok(Some(format)) => Ok(ParseMethod::Format((format, true))),
    }
}

/// Determines the column order of a timestamps file from its first non-empty
/// line: when that line, lowercased, mentions `start`, `end` and `name`, the
/// order in which those words first appear in it as space-separated words;
/// otherwise `NONE`, the default `name start end`.  The file must have a
/// non-empty line, and a first line that mentions the three words must hold
/// them as words.
fn find_file_format(file_contents: &String) -> (r: ParseMethod)
    requires
        spec_file_format(file_contents@) is Ok,
    ensures
        spec_file_format(file_contents@) matches Ok(d) && method_matches(r, d),
{
    match file_format(file_contents) {
        Ok(m) => m,
        Err(_) => {
            proof {
                assert(false);
            }
            ParseMethod::NONE
        },
    }
}

/// A result of reading one row, as text.
pub open spec fn row_result(r: Result<Vec<String>, TimestampError>) -> Result<
    Seq<Seq<char>>,
    TimestampError,
> {
    match r {
        Ok(row) => Ok(texts_of(row@)),
        Err(e) => Err(e),
    }
}

/// The row of three fields `a`, `b`, `c`.
fn row3(a: &Vec<char>, b: &Vec<char>, c: &Vec<char>) -> (r: Vec<String>)
    ensures
        texts_of(r@) == seq![a@, b@, c@],
{
    let mut r: Vec<String> = Vec::new();
    r.push(string_of(a.as_slice()));
    r.push(string_of(b.as_slice()));
    r.push(string_of(c.as_slice()));
    assert(texts_of(r@) =~= seq![a@, b@, c@]);
    r
}

/// Reads a row `NAME.mp3 START END`.
fn parse_row_name_first(line: &[char]) -> (r: Result<Vec<String>, TimestampError>)
    ensures
        row_result(r) == row_name_first(line@),
{
    let ext = chars_of(".mp3");
    let space = chars_of(" ");
    proof {
        reveal_strlit(".mp3");
        reveal_strlit(" ");
    }
    let temp = split_chars(line, ext.as_slice());
    if temp.len() < 2 {
        return Err(TimestampError::MissingExtension);
    }
    let name = joined(temp[0].as_slice(), ext.as_slice());
    let rest = trim_start_chars(temp[1].as_slice());
    let rest_split = split_chars(rest.as_slice(), space.as_slice());
    if rest_split.len() < 2 {
        return Err(TimestampError::MissingTimes);
    }
    Ok(row3(&name, &rest_split[0], &rest_split[1]))
}

/// Reads a row `FIRST NAME.mp3 THIRD`.
fn parse_row_name_second(line: &[char]) -> (r: Result<Vec<String>, TimestampError>)
    ensures
        row_result(r) == row_name_second(line@),
{
    let ext = chars_of(".mp3");
    let ext_space = chars_of(".mp3 ");
    let space = chars_of(" ");
    proof {
        reveal_strlit(".mp3 ");
        reveal_strlit(" ");
    }
    match split_once_chars(line, space.as_slice()) {
        None => Err(TimestampError::MissingField),
        Some((first, second)) => {
            let temp = split_chars(second.as_slice(), ext_space.as_slice());
            if temp.len() < 2 {
                return Err(TimestampError::MissingField);
            }
            let name = joined(temp[0].as_slice(), ext.as_slice());
            Ok(row3(&first, &name, &temp[1]))
        },
    }
}

/// Reads a row `FIRST SECOND NAME`.
fn parse_row_name_third(line: &[char]) -> (r: Result<Vec<String>, TimestampError>)
    ensures
        row_result(r) == row_name_third(line@),
{
    let space = chars_of(" ");
    proof {
        reveal_strlit(" ");
    }
    match split_once_chars(line, space.as_slice()) {
        None => Err(TimestampError::MissingField),
        Some((first, rest)) => match split_once_chars(rest.as_slice(), space.as_slice()) {
            None => Err(TimestampError::MissingField),
            Some((second, name)) => Ok(row3(&first, &second, &name)),
        },
    }
}

/// Once a prefix of the lines fails to read, the whole fails with the same
/// error.
proof fn lemma_parse_rows_error_stays(column: int, lines: Seq<Seq<char>>, k: int)
    requires
        0 <= k <= lines.len(),
        parse_rows(column, lines.take(k)) is Err,
    ensures
        parse_rows(column, lines) == parse_rows(column, lines.take(k)),
    decreases lines.len() - k,
{
    if k == lines.len() {
        assert(lines.take(k) =~= lines);
    } else {
        assert(lines.take(k + 1).drop_last() =~= lines.take(k));
        lemma_parse_rows_error_stays(column, lines, k + 1);
    }
}

/// The rows of a file as text.
pub open spec fn rows_result(r: Result<Vec<Vec<String>>, TimestampError>) -> Result<
    Seq<Seq<Seq<char>>>,
    TimestampError,
> {
    match r {
        Ok(rows) => Ok(rows_of(rows@)),
        Err(e) => Err(e),
    }
}

/// Reads `lines[from..]` as rows whose name stands in column `column`.
fn parse_lines(column: usize, lines: &Vec<Vec<char>>, from: usize) -> (r: Result<
    Vec<Vec<String>>,
    TimestampError,
>)
    requires
        from <= lines@.len(),
    ensures
        rows_result(r) == parse_rows(column as int, seqs_of(lines@).skip(from as int)),
{
    let ghost all = seqs_of(lines@).skip(from as int);
    let mut ret: Vec<Vec<String>> = Vec::new();
    assert(rows_of(ret@) =~= seq![]);
    if column > 2 {
        return Ok(ret);
    }
    assert(all.take(0) =~= seq![]);
    let mut i: usize = from;
    while i < lines.len()
        invariant
            column <= 2,
            from <= i <= lines@.len(),
            all == seqs_of(lines@).skip(from as int),
            parse_rows(column as int, all.take(i - from)) == Ok::<_, TimestampError>(
                rows_of(ret@),
            ),
        decreases lines@.len() - i,
    {
        assert(all.take(i - from + 1).drop_last() =~= all.take(i - from));
        assert(all.take(i - from + 1).last() == lines@[i as int]@);
        let line = lines[i].as_slice();
        let row = if column == 0 {
            parse_row_name_first(line)
        } else if column == 1 {
            parse_row_name_second(line)
        } else {
            parse_row_name_third(line)
        };
        match row {
            Err(e) => {
                proof {
                    lemma_parse_rows_error_stays(column as int, all, i - from + 1);
                    assert(all.take(all.len() as int) =~= all);
                }
                return Err(e);
            },
            Ok(row) => {
                let ghost old_ret = ret@;
                ret.push(row);
                assert(rows_of(ret@) =~= rows_of(old_ret).push(texts_of(row@)));
            },
        }
        i = i + 1;
    }
    assert(all.take(i - from) =~= all);
    Ok(ret)
}

/// The column of `format` that holds the name (3 when none does).
fn find_name_column(format: &Vec<String>) -> (column: usize)
    ensures
        column == name_column(texts_of(format@)),
{
    let name = chars_of("name");
    let mut k: usize = 0;
    while k < 3 && k < format.len()
        invariant
            name@ == name_word(),
            0 <= k <= 3,
            k <= format@.len(),
            forall|j: int| 0 <= j < k ==> format@[j]@ != name_word(),
        decreases 3 - k,
    {
        let field = chars_of(format[k].as_str());
        if same_chars(field.as_slice(), name.as_slice()) {
            return k;
        }
        k = k + 1;
    }
    3
}

/// The default column order `name start end`.
fn default_format_strings() -> (r: Vec<String>)
    ensures
        texts_of(r@) == default_format(),
{
    let mut r: Vec<String> = Vec::new();
    r.push(String::from_str("name"));
    r.push(String::from_str("start"));
    r.push(String::from_str("end"));
    assert(texts_of(r@) =~= default_format());
    r
}

/// A result of reading a timestamps file, as text.
pub open spec fn contents_result(r: Result<FileContents, TimestampError>) -> Result<
    SpecFileContents,
    TimestampError,
> {
    match r {
        Ok(f) => Ok(f@),
        Err(e) => Err(e),
    }
}

/// Reads the rows of a timestamps file whose column order is `method`.
fn rows_with_method(file_contents: &String, method: ParseMethod) -> (r: Result<
    FileContents,
    TimestampError,
>)
    requires
        spec_file_format(file_contents@) matches Ok(d) && method_matches(method, d),
    ensures
        contents_result(r) == spec_parse_file(file_contents@),
{
    let (format_strings, has_format) = match method {
        ParseMethod::NONE => (default_format_strings(), false),
        ParseMethod::Format((format_strings, has_format)) => (format_strings, has_format),
    };
    let contents = chars_of(file_contents.as_str());
    let lines = lines_of(contents.as_slice());
    let from: usize = if has_format {
        1
    } else {
        0
    };
    if lines.len() - from < 2 {
        return Err(TimestampError::TooFewLines);
    }
    let column = find_name_column(&format_strings);
    assert(seqs_of(lines@).skip(0) =~= seqs_of(lines@));
    match parse_lines(column, &lines, from) {
        Err(e) => Err(e),
        Ok(data) => Ok(FileContents { format: format_strings, data }),
    }
}

/// What a timestamps file holds, or why it cannot be read.
fn parse_result(file_contents: &String) -> (r: Result<FileContents, TimestampError>)
    ensures
        contents_result(r) == spec_parse_file(file_contents@),
{
    match file_format(file_contents) {
        Err(e) => Err(e),
        Ok(method) => rows_with_method(file_contents, method),
    }
}

/// Reads a timestamps file: finds its column order (see `find_file_format`),
/// drops the format line if there is one, and reads each remaining non-empty
/// line as a row in that order.  The file must be readable so: a sound format
/// line if any, at least two rows after it, and rows laid out as it says.
pub fn parse_file(file_contents: String) -> (r: FileContents)
    requires
        spec_parse_file(file_contents@) is Ok,
    ensures
        spec_parse_file(file_contents@) == Ok::<_, TimestampError>(r@),
{
    let method = find_file_format(&file_contents);
    match rows_with_method(&file_contents, method) {
        Ok(f) => f,
        Err(_) => {
            proof {
                assert(false);
            }
            FileContents { format: Vec::new(), data: Vec::new() }
        },
    }
}

/// Reads a timestamps file as `parse_file` does, and says why it cannot be
/// read where `parse_file` does not apply.
pub fn read_timestamps(file_contents: String) -> (r: Result<FileContents, TimestampError>)
    ensures
        contents_result(r) == spec_parse_file(file_contents@),
{
    match parse_result(&file_contents) {
        Err(e) => Err(e),
        Ok(_) => Ok(parse_file(file_contents)),
    }
}

/// The `ffmpeg` command that cuts `input_path` from `beginning` to `end` into
/// an MP3 file named `filename`.
pub open spec fn ffmpeg_command(
    input_path: Seq<char>,
    filename: Seq<char>,
    beginning: Seq<char>,
    end: Seq<char>,
) -> Seq<char> {
    "ffmpeg -i "@ + input_path + " -acodec libmp3lame -ss "@ + beginning + " -to "@ + end
        + " file:\""@ + filename + "\" -y"@
}

/// Builds the `ffmpeg` command that cuts `input_path` from `beginning` to
/// `end` into an MP3 file named `filename`.
pub fn construct_command(input_path: &String, filename: &String, beginning: &String, end: &String) -> (command: String)
    ensures
        command@ == ffmpeg_command(input_path@, filename@, beginning@, end@),
{
    let mut command = String::from_str("ffmpeg -i ");
    command.append(input_path.as_str());
    command.append(" -acodec libmp3lame -ss ");
    command.append(beginning.as_str());
    command.append(" -to ");
    command.append(end.as_str());
    command.append(" file:\"");
    command.append(filename.as_str());
    command.append("\" -y");
    command
}

/// The index of the first occurrence of `x` in `s`.
pub open spec fn position(s: Seq<Seq<char>>, x: Seq<char>) -> Option<int>
    decreases s.len(),
{
    if s.len() == 0 {
        None
    } else {
        match position(s.drop_last(), x) {
            Some(i) => Some(i),
            None => if s.last() == x {
                Some(s.len() - 1)
            } else {
                None
            },
        }
    }
}

/// The index of the first occurrence of `x` in `v`.
fn position_of(v: &Vec<String>, x: &str) -> (r: Option<usize>)
    ensures
        match r {
            Some(i) => position(texts_of(v@), x@) == Some(i as int),
            None => position(texts_of(v@), x@) is None,
        },
{
    let target = chars_of(x);
    let mut i: usize = 0;
    while i < v.len()
        invariant
            target@ == x@,
            0 <= i <= v@.len(),
            position(texts_of(v@).take(i as int), x@) is None,
        decreases v@.len() - i,
    {
        let ghost all = texts_of(v@);
        assert(all.take(i + 1).drop_last() =~= all.take(i as int));
        let field = chars_of(v[i].as_str());
        if same_chars(field.as_slice(), target.as_slice()) {
            proof {
                lemma_position_prefix(all, x@, i + 1);
            }
            return Some(i);
        }
        i = i + 1;
    }
    assert(texts_of(v@).take(i as int) =~= texts_of(v@));
    None
}

/// A position found in a prefix is the position in the whole.
proof fn lemma_position_prefix(s: Seq<Seq<char>>, x: Seq<char>, k: int)
    requires
        0 <= k <= s.len(),
        position(s.take(k), x) is Some,
    ensures
        position(s, x) == position(s.take(k), x),
    decreases s.len() - k,
{
    if k == s.len() {
        assert(s.take(k) =~= s);
    } else {
        assert(s.take(k + 1).drop_last() =~= s.take(k));
        lemma_position_prefix(s, x, k + 1);
    }
}

/// The commands that cut `input_path` into one file per row of `f`, in row
/// order, when the format names all three columns and every row holds them.
pub open spec fn spec_split_commands(f: SpecFileContents, input_path: Seq<char>) -> Option<
    Seq<Seq<char>>,
> {
    match (
        position(f.format, start_word()),
        position(f.format, end_word()),
        position(f.format, name_word()),
    ) {
        (Some(s), Some(e), Some(n)) => {
            if forall|i: int|
                0 <= i < f.data.len() ==> s < #[trigger] f.data[i].len() && e < f.data[i].len() && n
                    < f.data[i].len() {
                Some(
                    Seq::new(
                        f.data.len(),
                        |i: int| ffmpeg_command(input_path, f.data[i][n], f.data[i][s], f.data[i][e]),
                    ),
                )
            } else {
                None
            }
        },
        _ => None,
    }
}

/// The commands that cut `input_path` into one file per row of `f`: each
/// row's name, start and end are found through the columns of `f.format`.
/// `None` when the format lacks one of the three columns or a row is too
/// short for them.
pub fn split_commands(f: &FileContents, input_path: &String) -> (r: Option<Vec<String>>)
    ensures
        match r {
            Some(commands) => spec_split_commands(f@, input_path@) == Some(texts_of(commands@)),
            None => spec_split_commands(f@, input_path@) is None,
        },
{
    let start_index = match position_of(&f.format, "start") {
        Some(i) => i,
        None => {
            return None;
        },
    };
    let end_index = match position_of(&f.format, "end") {
        Some(i) => i,
        None => {
            return None;
        },
    };
    let name_index = match position_of(&f.format, "name") {
        Some(i) => i,
        None => {
            return None;
        },
    };
    let ghost data = rows_of(f.data@);
    let mut commands: Vec<String> = Vec::new();
    let mut i: usize = 0;
    while i < f.data.len()
        invariant
            0 <= i <= f.data@.len(),
            data == rows_of(f.data@),
            position(f@.format, start_word()) == Some(start_index as int),
            position(f@.format, end_word()) == Some(end_index as int),
            position(f@.format, name_word()) == Some(name_index as int),
            commands@.len() == i,
            forall|j: int|
                0 <= j < i ==> start_index < #[trigger] data[j].len() && end_index < data[j].len()
                    && name_index < data[j].len(),
            forall|j: int|
                0 <= j < i ==> #[trigger] commands@[j]@ == ffmpeg_command(
                    input_path@,
                    data[j][name_index as int],
                    data[j][start_index as int],
                    data[j][end_index as int],
                ),
        decreases f.data@.len() - i,
    {
        let row = &f.data[i];
        assert(data[i as int] == texts_of(row@));
        if start_index >= row.len() || end_index >= row.len() || name_index >= row.len() {
            assert(!(start_index < data[i as int].len() && end_index < data[i as int].len()
                && name_index < data[i as int].len()));
            return None;
        }
        let command = construct_command(
            input_path,
            &row[name_index],
            &row[start_index],
            &row[end_index],
        );
        commands.push(command);
        i = i + 1;
    }
    assert(texts_of(commands@) =~= Seq::new(
        data.len(),
        |j: int|
            ffmpeg_command(
                input_path@,
                data[j][name_index as int],
                data[j][start_index as int],
                data[j][end_index as int],
            ),
    ));
    Some(commands)
}

/// The three column words differ from one another.
pub proof fn lemma_column_words_differ()
    ensures
        start_word() != end_word(),
        start_word() != name_word(),
        end_word() != name_word(),
        start_word().len() == 5,
        end_word().len() == 3,
        name_word().len() == 4,
{
    reveal_strlit("start");
    reveal_strlit("end");
    reveal_strlit("name");
    assert(start_word().len() != end_word().len());
    assert(start_word().len() != name_word().len());
    assert(end_word().len() != name_word().len());
}

/// The keywords found among `tokens` are keywords that occur there, each
/// once, and every keyword that occurs there is found.
pub proof fn lemma_first_keywords(tokens: Seq<Seq<char>>)
    ensures
        forall|i: int|
            0 <= i < first_keywords(tokens).len() ==> is_keyword(#[trigger] first_keywords(tokens)[i])
                && tokens.contains(first_keywords(tokens)[i]),
        forall|i: int, j: int|
            0 <= i < j < first_keywords(tokens).len() ==> #[trigger] first_keywords(tokens)[i]
                != #[trigger] first_keywords(tokens)[j],
        forall|t: Seq<char>|
            is_keyword(t) && #[trigger] tokens.contains(t) ==> first_keywords(tokens).contains(t),
    decreases tokens.len(),
{
    if tokens.len() > 0 {
        let prev = tokens.drop_last();
        lemma_first_keywords(prev);
        let fk = first_keywords(tokens);
        let pk = first_keywords(prev);
        assert forall|i: int| 0 <= i < fk.len() implies is_keyword(#[trigger] fk[i]) && tokens.contains(
            fk[i],
        ) by {
            if i < pk.len() {
                assert(fk[i] == pk[i]);
                let w = choose|w: int| 0 <= w < prev.len() && prev[w] == pk[i];
                assert(tokens[w] == pk[i]);
            } else {
                assert(tokens[tokens.len() - 1] == tokens.last());
            }
        }
        assert forall|t: Seq<char>| is_keyword(t) && #[trigger] tokens.contains(t) implies fk.contains(
            t,
        ) by {
            let w = choose|w: int| 0 <= w < tokens.len() && tokens[w] == t;
            if w < tokens.len() - 1 {
                assert(prev[w] == t);
                assert(prev.contains(t));
                assert(pk.contains(t));
                let k = choose|k: int| 0 <= k < pk.len() && pk[k] == t;
                assert(fk[k] == t);
            } else if prev.contains(t) {
                let k = choose|k: int| 0 <= k < pk.len() && pk[k] == t;
                assert(fk[k] == t);
            } else {
                assert(fk[fk.len() - 1] == t);
            }
        }
        assert forall|i: int, j: int| 0 <= i < j < fk.len() implies #[trigger] fk[i] != #[trigger] fk[j] by {
            if j < pk.len() {
                assert(fk[i] == pk[i] && fk[j] == pk[j]);
            } else {
                assert(fk[i] == pk[i]);
                let w = choose|w: int| 0 <= w < prev.len() && prev[w] == pk[i];
                assert(prev.contains(pk[i]));
            }
        }
    }
}

/// Three different column words are all three of them.
pub proof fn lemma_three_keywords(f: Seq<Seq<char>>)
    requires
        f.len() == 3,
        forall|i: int| 0 <= i < 3 ==> is_keyword(#[trigger] f[i]),
        f[0] != f[1],
        f[0] != f[2],
        f[1] != f[2],
    ensures
        f.contains(start_word()),
        f.contains(end_word()),
        f.contains(name_word()),
{
    lemma_column_words_differ();
    assert(is_keyword(f[0]) && is_keyword(f[1]) && is_keyword(f[2]));
    if f[0] == start_word() {
        assert(f.contains(start_word()));
    } else if f[1] == start_word() {
        assert(f.contains(start_word()));
    } else {
        assert(f[2] == start_word());
        assert(f.contains(start_word()));
    }
    if f[0] == end_word() {
        assert(f.contains(end_word()));
    } else if f[1] == end_word() {
        assert(f.contains(end_word()));
    } else {
        assert(f[2] == end_word());
        assert(f.contains(end_word()));
    }
    if f[0] == name_word() {
        assert(f.contains(name_word()));
    } else if f[1] == name_word() {
        assert(f.contains(name_word()));
    } else {
        assert(f[2] == name_word());
        assert(f.contains(name_word()));
    }
}

/// A value in `s` has a position: the first index that holds it.
pub proof fn lemma_position(s: Seq<Seq<char>>, x: Seq<char>)
    ensures
        s.contains(x) ==> position(s, x) is Some,
        position(s, x) matches Some(i) ==> 0 <= i < s.len() && s[i] == x,
        position(s, x) matches Some(i) ==> forall|j: int| 0 <= j < i ==> s[j] != x,
        position(s, x) is None ==> !s.contains(x),
    decreases s.len(),
{
    if s.len() > 0 {
        lemma_position(s.drop_last(), x);
        assert(forall|j: int| 0 <= j < s.len() - 1 ==> s.drop_last()[j] == s[j]);
        if s.contains(x) && !s.drop_last().contains(x) {
            let w = choose|w: int| 0 <= w < s.len() && s[w] == x;
            if w < s.len() - 1 {
                assert(s.drop_last()[w] == x);
            }
        }
    }
}

/// Rows read in a name column are one per line, of three fields each.
pub proof fn lemma_parse_rows_shape(column: int, lines: Seq<Seq<char>>)
    requires
        0 <= column <= 2,
    ensures
        parse_rows(column, lines) matches Ok(rows) ==> {
            &&& rows.len() == lines.len()
            &&& forall|i: int| 0 <= i < rows.len() ==> (#[trigger] rows[i]).len() == 3
        },
    decreases lines.len(),
{
    if lines.len() > 0 {
        lemma_parse_rows_shape(column, lines.drop_last());
    }
}

/// Contents that name each column once and hold rows of three fields.
pub open spec fn well_formed(f: SpecFileContents) -> bool {
    &&& f.format.len() == 3
    &&& f.format.contains(start_word())
    &&& f.format.contains(end_word())
    &&& f.format.contains(name_word())
    &&& forall|i: int| 0 <= i < f.data.len() ==> (#[trigger] f.data[i]).len() == 3
}

/// Whatever reads successfully as a timestamps file names each of `start`,
/// `end` and `name` once as its columns, holds one row of three fields per
/// non-empty line after the format line (if any), and so yields one `ffmpeg`
/// command per row.
pub proof fn lemma_parsed_file_is_well_formed(contents: Seq<char>, input_path: Seq<char>)
    ensures
        spec_parse_file(contents) matches Ok(f) ==> {
            &&& well_formed(f)
            &&& f.data.len() == file_lines(contents).len() - if spec_file_format(contents) matches Ok(
                Some(_),
            ) {
                1int
            } else {
                0int
            }
            &&& spec_split_commands(f, input_path) matches Some(commands)
            &&& commands.len() == f.data.len()
        },
{
    if let Ok(f) = spec_parse_file(contents) {
        lemma_column_words_differ();
        if let Ok(Some(found)) = spec_file_format(contents) {
            let lower = lowercase(file_lines(contents)[0]);
            lemma_first_keywords(split(lower, " "@));
            assert(found[0] != found[1] && found[0] != found[2] && found[1] != found[2]);
            lemma_three_keywords(found);
        } else {
            assert(default_format()[0] == name_word());
            assert(default_format()[1] == start_word());
            assert(default_format()[2] == end_word());
        }
        let format = f.format;
        lemma_position(format, name_word());
        assert(0 <= name_column(format) <= 2);
        let lines = if spec_file_format(contents) matches Ok(Some(_)) {
            file_lines(contents).skip(1)
        } else {
            file_lines(contents)
        };
        lemma_parse_rows_shape(name_column(format), lines);
        lemma_position(format, start_word());
        lemma_position(format, end_word());
        assert(spec_split_commands(f, input_path) is Some);
    }
}

/// The columns a format line declares come in the order in which the words
/// `start`, `end` and `name` first appear in it.
pub proof fn lemma_keywords_in_order(tokens: Seq<Seq<char>>)
    ensures
        forall|i: int, j: int|
            0 <= i < j < first_keywords(tokens).len() ==> position(
                tokens,
                #[trigger] first_keywords(tokens)[i],
            )->0 < position(tokens, #[trigger] first_keywords(tokens)[j])->0,
    decreases tokens.len(),
{
    if tokens.len() > 0 {
        let prev = tokens.drop_last();
        lemma_keywords_in_order(prev);
        lemma_first_keywords(prev);
        let fk = first_keywords(tokens);
        let pk = first_keywords(prev);
        assert forall|i: int, j: int| 0 <= i < j < fk.len() implies position(
            tokens,
            #[trigger] fk[i],
        )->0 < position(tokens, #[trigger] fk[j])->0 by {
            assert(prev.contains(pk[i]));
            lemma_position(prev, pk[i]);
            assert(fk[i] == pk[i]);
            if j < pk.len() {
                assert(fk[j] == pk[j]);
                assert(prev.contains(pk[j]));
                lemma_position(prev, pk[j]);
            } else {
                assert(fk[j] == tokens.last());
                assert(!prev.contains(tokens.last()));
                lemma_position(prev, tokens.last());
            }
        }
    }
}

/// A row written `START END NAME`, with no space in the two times, reads
/// back as those three fields.
pub proof fn lemma_row_name_third(start: Seq<char>, end: Seq<char>, name: Seq<char>)
    requires
        !start.contains(' '),
        !end.contains(' '),
    ensures
        row_name_third(start + seq![' '] + end + seq![' '] + name) == Ok::<_, TimestampError>(
            seq![start, end, name],
        ),
{
    reveal_strlit(" ");
    assert(" "@ =~= seq![' ']);
    let tail = end + seq![' '] + name;
    assert(start + seq![' '] + end + seq![' '] + name =~= start + seq![' '] + tail);
    lemma_split_once_single(start, ' ', tail);
    lemma_split_once_single(end, ' ', name);
}

/// A row written `NAME.mp3 START END`, where neither the name nor the times
/// hold `.mp3`, the times hold no space and the start time does not begin
/// with white space, reads back as those three fields.
pub proof fn lemma_row_name_first(name: Seq<char>, start: Seq<char>, end: Seq<char>)
    requires
        !contains_seq(name, mp3()),
        start.len() > 0,
        !is_white_space(start[0]),
        !start.contains(' '),
        !contains_seq(start, mp3()),
        !end.contains(' '),
        !contains_seq(end, mp3()),
    ensures
        row_name_first(name + mp3() + seq![' '] + start + seq![' '] + end) == Ok::<
            _,
            TimestampError,
        >(seq![name + mp3(), start, end]),
{
    reveal_strlit(".mp3");
    reveal_strlit(" ");
    let ext = mp3();
    assert(ext =~= seq!['.', 'm', 'p', '3']);
    assert(" "@ =~= seq![' ']);
    let times = seq![' '] + start + seq![' '] + end;
    let line = name + ext + times;
    assert(name + mp3() + seq![' '] + start + seq![' '] + end =~= line);
    let n = name.len() as int;
    lemma_find_from(name, ext, 0);
    assert forall|j: int| 0 <= j < n implies !occurs_at(line, ext, j) by {
        if occurs_at(line, ext, j) {
            if j + 4 <= n {
                assert(name.subrange(j, j + 4) =~= line.subrange(j, j + 4));
                assert(occurs_at(name, ext, j));
            } else {
                assert(line.subrange(j, j + 4)[n - j] == line[n]);
                assert(line[n] == '.');
            }
        }
    }
    assert(line.subrange(n, n + 4) =~= ext);
    lemma_piece_until(line, ext, 0, n);
    lemma_find_from(start, ext, 0);
    lemma_find_from(end, ext, 0);
    let ls = start.len() as int;
    assert forall|j: int| n + 4 <= j < line.len() implies !occurs_at(line, ext, j) by {
        if occurs_at(line, ext, j) {
            let t = j - n - 4;
            let w = line.subrange(j, j + 4);
            assert(w[0] == line[j]);
            assert(line[j] == times[t]);
            if t == 0 || t == ls + 1 {
                assert(times[t] == ' ');
            } else if t <= ls && t + 4 <= ls + 1 {
                assert(start.subrange(t - 1, t + 3) =~= w);
                assert(occurs_at(start, ext, t - 1));
            } else if t <= ls {
                let k = ls + 1 - t;
                assert(w[k] == line[j + k]);
                assert(line[j + k] == times[ls + 1]);
            } else {
                assert(end.subrange(t - ls - 2, t - ls + 2) =~= w);
                assert(occurs_at(end, ext, t - ls - 2));
            }
        }
    }
    lemma_piece_until(line, ext, n + 4, line.len() as int);
    assert(line.subrange(0, n) =~= name);
    assert(line.subrange(n + 4, line.len() as int) =~= times);
    let trimmed = start + seq![' '] + end;
    assert(is_white_space(times[0]));
    assert(times[1] == start[0]);
    assert(skip_white_space(times, 1) == 1);
    assert(skip_white_space(times, 0) == 1);
    assert(trim_start(times) =~= trimmed);
    assert forall|j: int| 0 <= j < start.len() implies !occurs_at(trimmed, " "@, j) by {
        lemma_occurs_single(trimmed, ' ', j);
        assert(trimmed[j] == start[j]);
    }
    lemma_occurs_single(trimmed, ' ', start.len() as int);
    lemma_piece_until(trimmed, " "@, 0, start.len() as int);
    assert forall|j: int| start.len() + 1 <= j < trimmed.len() implies !occurs_at(
        trimmed,
        " "@,
        j,
    ) by {
        lemma_occurs_single(trimmed, ' ', j);
        assert(trimmed[j] == end[j - start.len() - 1]);
    }
    lemma_piece_until(trimmed, " "@, start.len() as int + 1, trimmed.len() as int);
    assert(trimmed.subrange(0, start.len() as int) =~= start);
    assert(trimmed.subrange(start.len() as int + 1, trimmed.len() as int) =~= end);
}

/// The column words are non-empty and hold neither a space nor a line break.
pub proof fn lemma_keyword_chars(w: Seq<char>)
    requires
        is_keyword(w),
    ensures
        w.len() > 0,
        !w.contains(' '),
        !w.contains('\n'),
{
    reveal_strlit("start");
    reveal_strlit("end");
    reveal_strlit("name");
    assert(start_word() =~= seq!['s', 't', 'a', 'r', 't']);
    assert(end_word() =~= seq!['e', 'n', 'd']);
    assert(name_word() =~= seq!['n', 'a', 'm', 'e']);
}

/// `w` occurs in `s` where it stands.
proof fn lemma_contains_at(s: Seq<char>, w: Seq<char>, o: int)
    requires
        w.len() > 0,
        0 <= o,
        o + w.len() <= s.len(),
        s.subrange(o, o + w.len()) == w,
    ensures
        contains_seq(s, w),
{
    assert(occurs_at(s, w, o));
    lemma_find_from(s, w, 0);
}

/// A file whose first line declares its columns as the three words
/// `start`, `end` and `name`, in any order, separated by single spaces, is
/// read with its columns in that order, provided lowercasing leaves the line
/// as it is.
pub proof fn lemma_declared_format(
    w0: Seq<char>,
    w1: Seq<char>,
    w2: Seq<char>,
    rest: Seq<char>,
)
    requires
        is_keyword(w0),
        is_keyword(w1),
        is_keyword(w2),
        w0 != w1,
        w0 != w2,
        w1 != w2,
        lowercase(w0 + seq![' '] + w1 + seq![' '] + w2) == w0 + seq![' '] + w1 + seq![' '] + w2,
    ensures
        spec_file_format(w0 + seq![' '] + w1 + seq![' '] + w2 + seq!['\n'] + rest) == Ok::<
            _,
            TimestampError,
        >(Some(seq![w0, w1, w2])),
{
    lemma_keyword_chars(w0);
    lemma_keyword_chars(w1);
    lemma_keyword_chars(w2);
    reveal_strlit("\n");
    reveal_strlit(" ");
    let newline = "\n"@;
    let space = " "@;
    assert(newline =~= seq!['\n']);
    assert(space =~= seq![' ']);
    let header = w0 + seq![' '] + w1 + seq![' '] + w2;
    let contents = header + seq!['\n'] + rest;
    let h = header.len() as int;
    let a = w0.len() as int;
    let b = w1.len() as int;
    // The first line is the header.
    assert forall|j: int| 0 <= j < h implies !occurs_at(contents, newline, j) by {
        lemma_occurs_single(contents, '\n', j);
        assert(contents[j] == header[j]);
        if j < a {
            assert(header[j] == w0[j]);
        } else if a < j < a + 1 + b {
            assert(header[j] == w1[j - a - 1]);
        } else if j > a + 1 + b {
            assert(header[j] == w2[j - a - b - 2]);
        }
    }
    lemma_occurs_single(contents, '\n', h);
    lemma_piece_until(contents, newline, 0, h);
    assert(contents.subrange(0, h) =~= header);
    lemma_drop_empty_first(split(contents, newline));
    assert(file_lines(contents)[0] == header);
    // The header names all three columns.
    assert(header.subrange(0, a) =~= w0);
    assert(header.subrange(a + 1, a + 1 + b) =~= w1);
    assert(header.subrange(a + b + 2, h) =~= w2);
    lemma_contains_at(header, w0, 0);
    lemma_contains_at(header, w1, a + 1);
    lemma_contains_at(header, w2, a + b + 2);
    lemma_column_words_differ();
    assert(mentions_all_columns(header));
    // Its words are the three columns.
    assert forall|j: int| 0 <= j < a implies !occurs_at(header, space, j) by {
        lemma_occurs_single(header, ' ', j);
        assert(header[j] == w0[j]);
    }
    lemma_occurs_single(header, ' ', a);
    lemma_piece_until(header, space, 0, a);
    assert forall|j: int| a + 1 <= j < a + 1 + b implies !occurs_at(header, space, j) by {
        lemma_occurs_single(header, ' ', j);
        assert(header[j] == w1[j - a - 1]);
    }
    lemma_occurs_single(header, ' ', a + 1 + b);
    lemma_piece_until(header, space, a + 1, a + 1 + b);
    assert forall|j: int| a + b + 2 <= j < h implies !occurs_at(header, space, j) by {
        lemma_occurs_single(header, ' ', j);
        assert(header[j] == w2[j - a - b - 2]);
    }
    lemma_piece_until(header, space, a + b + 2, h);
    let tokens = split(header, space);
    lemma_find_from(header, space, a + b + 2);
    assert(split_from(header, space, a + b + 2) =~= seq![w2]);
    assert(split_from(header, space, a + 1) =~= seq![w1, w2]);
    assert(tokens =~= seq![w0, w1, w2]);
    assert(tokens.drop_last() =~= seq![w0, w1]);
    assert(tokens.drop_last().drop_last() =~= seq![w0]);
    assert(!seq![w0].contains(w1));
    assert(!seq![w0, w1].contains(w2));
    assert(seq![w0].drop_last() =~= Seq::<Seq<char>>::empty());
    assert(!Seq::<Seq<char>>::empty().contains(w0));
    assert(first_keywords(Seq::<Seq<char>>::empty()) =~= Seq::<Seq<char>>::empty());
    assert(seq![w0].last() == w0);
    assert(seq![w0, w1].last() == w1);
    assert(seq![w0, w1, w2].last() == w2);
    assert(first_keywords(seq![w0]) =~= seq![w0]);
    assert(first_keywords(seq![w0, w1]) =~= seq![w0, w1]);
    assert(first_keywords(tokens) =~= seq![w0, w1, w2]);
}

/// `s` without its first `n` occurrences of `c`, as `str::replacen` with an
/// empty replacement gives it.
pub open spec fn without_first(s: Seq<char>, c: char, n: nat) -> Seq<char>
    decreases s.len(),
{
    if s.len() == 0 {
        s
    } else if s[0] == c && n > 0 {
        without_first(s.drop_first(), c, (n - 1) as nat)
    } else {
        seq![s[0]] + without_first(s.drop_first(), c, n)
    }
}

/// The path text with its first two double quotes removed: the quotes that
/// the debug form of a path puts around it.
pub fn strip_path_quotes(path_text: &str) -> (r: String)
    ensures
        r@ == without_first(path_text@, '"', 2),
{
    let chars = chars_of(path_text);
    let mut out: Vec<char> = Vec::new();
    let mut left: usize = 2;
    let mut i: usize = 0;
    assert(chars@.skip(0) =~= chars@);
    assert(out@ + without_first(chars@, '"', 2) =~= without_first(chars@, '"', 2));
    while i < chars.len()
        invariant
            0 <= i <= chars@.len(),
            left <= 2,
            out@ + without_first(chars@.skip(i as int), '"', left as nat) == without_first(
                chars@,
                '"',
                2,
            ),
        decreases chars@.len() - i,
    {
        let ghost rest = chars@.skip(i as int);
        assert(rest.drop_first() =~= chars@.skip(i + 1));
        assert(rest[0] == chars@[i as int]);
        if chars[i] == '"' && left > 0 {
            left = left - 1;
        } else {
            let ghost old_out = out@;
            out.push(chars[i]);
            assert(out@ + without_first(chars@.skip(i + 1), '"', left as nat) =~= old_out + (seq![
                rest[0],
            ] + without_first(rest.drop_first(), '"', left as nat)));
        }
        i = i + 1;
    }
    assert(chars@.skip(i as int) =~= Seq::<char>::empty());
    assert(out@ + without_first(chars@.skip(i as int), '"', left as nat) =~= out@);
    string_of(out.as_slice())
}

/// The path under which a listing of the working directory shows the default
/// input file.
pub open spec fn default_input_path() -> Seq<char> {
    "./input.opus"@
}

/// Whether the listed paths include the default input file.
pub fn lists_default_input(paths: &Vec<String>) -> (found: bool)
    ensures
        found == texts_of(paths@).contains(default_input_path()),
{
    let target = chars_of("./input.opus");
    let mut i: usize = 0;
    while i < paths.len()
        invariant
            target@ == default_input_path(),
            0 <= i <= paths@.len(),
            forall|j: int| 0 <= j < i ==> paths@[j]@ != default_input_path(),
        decreases paths@.len() - i,
    {
        let path = chars_of(paths[i].as_str());
        if same_chars(path.as_slice(), target.as_slice()) {
            assert(texts_of(paths@)[i as int] == default_input_path());
            return true;
        }
        i = i + 1;
    }
    assert(forall|j: int|
        0 <= j < paths@.len() ==> #[trigger] texts_of(paths@)[j] == paths@[j]@);
    false
}

/// A row written `START NAME.mp3 END`, where the start time holds no space
/// and neither the name nor the end time holds `.mp3 `, reads back as those
/// three fields.
pub proof fn lemma_row_name_second(start: Seq<char>, name: Seq<char>, end: Seq<char>)
    requires
        !start.contains(' '),
        !contains_seq(name, ".mp3 "@),
        !contains_seq(end, ".mp3 "@),
    ensures
        row_name_second(start + seq![' '] + name + mp3() + seq![' '] + end) == Ok::<
            _,
            TimestampError,
        >(seq![start, name + mp3(), end]),
{
    reveal_strlit(".mp3");
    reveal_strlit(".mp3 ");
    reveal_strlit(" ");
    let pat = ".mp3 "@;
    assert(pat =~= seq!['.', 'm', 'p', '3', ' ']);
    assert(mp3() =~= seq!['.', 'm', 'p', '3']);
    assert(" "@ =~= seq![' ']);
    let second = name + pat + end;
    assert(start + seq![' '] + name + mp3() + seq![' '] + end =~= start + seq![' '] + second);
    lemma_split_once_single(start, ' ', second);
    let n = name.len() as int;
    lemma_find_from(name, pat, 0);
    lemma_find_from(end, pat, 0);
    assert forall|j: int| 0 <= j < n implies !occurs_at(second, pat, j) by {
        if occurs_at(second, pat, j) {
            if j + 5 <= n {
                assert(name.subrange(j, j + 5) =~= second.subrange(j, j + 5));
                assert(occurs_at(name, pat, j));
            } else {
                assert(second.subrange(j, j + 5)[n - j] == second[n]);
                assert(second[n] == '.');
            }
        }
    }
    assert(second.subrange(n, n + 5) =~= pat);
    lemma_piece_until(second, pat, 0, n);
    assert forall|j: int| n + 5 <= j < second.len() implies !occurs_at(second, pat, j) by {
        if occurs_at(second, pat, j) {
            assert(end.subrange(j - n - 5, j - n) =~= second.subrange(j, j + 5));
            assert(occurs_at(end, pat, j - n - 5));
        }
    }
    lemma_piece_until(second, pat, n + 5, second.len() as int);
    assert(second.subrange(0, n) =~= name);
    assert(second.subrange(n + 5, second.len() as int) =~= end);
}

/// Lines that each read as a row read as those rows.
pub proof fn lemma_parse_rows_all(
    column: int,
    lines: Seq<Seq<char>>,
    rows: Seq<Seq<Seq<char>>>,
)
    requires
        0 <= column <= 2,
        lines.len() == rows.len(),
        forall|i: int|
            0 <= i < lines.len() ==> parse_row(column, #[trigger] lines[i]) == Ok::<
                _,
                TimestampError,
            >(rows[i]),
    ensures
        parse_rows(column, lines) == Ok::<_, TimestampError>(rows),
    decreases lines.len(),
{
    if lines.len() > 0 {
        let pl = lines.drop_last();
        let pr = rows.drop_last();
        assert forall|i: int| 0 <= i < pl.len() implies parse_row(column, #[trigger] pl[i]) == Ok::<
            _,
            TimestampError,
        >(pr[i]) by {
            assert(pl[i] == lines[i]);
        }
        lemma_parse_rows_all(column, pl, pr);
        assert(lines.last() == lines[lines.len() - 1]);
        assert(pr.push(rows.last()) =~= rows);
    } else {
        assert(rows =~= seq![]);
    }
}

/// A timestamps file written as a format line that declares the columns
/// `w0 w1 w2` (any order of `start`, `end` and `name`), followed by lines
/// that each read as a row in that order, reads back as exactly those
/// columns and rows (given that lowercasing leaves the format line as it is),
/// whether or not the last line ends with a line break.
pub proof fn lemma_file_reads_back(
    w0: Seq<char>,
    w1: Seq<char>,
    w2: Seq<char>,
    lines: Seq<Seq<char>>,
    rows: Seq<Seq<Seq<char>>>,
)
    requires
        is_keyword(w0),
        is_keyword(w1),
        is_keyword(w2),
        w0 != w1,
        w0 != w2,
        w1 != w2,
        lowercase(w0 + seq![' '] + w1 + seq![' '] + w2) == w0 + seq![' '] + w1 + seq![' '] + w2,
        lines.len() == rows.len(),
        lines.len() >= 2,
        forall|i: int|
            0 <= i < lines.len() ==> (#[trigger] lines[i]).len() > 0 && !lines[i].contains('\n')
                && parse_row(name_column(seq![w0, w1, w2]), lines[i]) == Ok::<_, TimestampError>(
                rows[i],
            ),
    ensures
        spec_parse_file(join_lines(seq![w0 + seq![' '] + w1 + seq![' '] + w2] + lines)) == Ok::<
            _,
            TimestampError,
        >(SpecFileContents { format: seq![w0, w1, w2], data: rows }),
        spec_parse_file(join_lines(seq![w0 + seq![' '] + w1 + seq![' '] + w2] + lines).drop_last())
            == Ok::<_, TimestampError>(SpecFileContents { format: seq![w0, w1, w2], data: rows }),
{
    let header = w0 + seq![' '] + w1 + seq![' '] + w2;
    let all = seq![header] + lines;
    let contents = join_lines(all);
    assert(all[0] == header);
    assert(all.drop_first() =~= lines);
    assert(contents =~= header + seq!['\n'] + join_lines(lines));
    lemma_declared_format(w0, w1, w2, join_lines(lines));
    lemma_keyword_chars(w0);
    lemma_keyword_chars(w1);
    lemma_keyword_chars(w2);
    let a = w0.len() as int;
    let b = w1.len() as int;
    assert forall|j: int| 0 <= j < header.len() implies header[j] != '\n' by {
        if j < a {
            assert(header[j] == w0[j]);
        } else if a < j < a + 1 + b {
            assert(header[j] == w1[j - a - 1]);
        } else if j > a + 1 + b {
            assert(header[j] == w2[j - a - b - 2]);
        }
    }
    assert forall|i: int| 0 <= i < all.len() implies !(#[trigger] all[i]).contains('\n') by {
        if i > 0 {
            assert(all[i] == lines[i - 1]);
        }
    }
    assert forall|i: int| 0 <= i < all.len() implies (#[trigger] all[i]).len() > 0 by {
        if i > 0 {
            assert(all[i] == lines[i - 1]);
        }
    }
    reveal_strlit("\n");
    assert("\n"@ =~= seq!['\n']);
    lemma_split_joined_lines(all);
    lemma_drop_empty_keeps(all);
    assert(file_lines(contents) == all);
    assert(all.skip(1) =~= lines);
    let format = seq![w0, w1, w2];
    lemma_column_words_differ();
    lemma_three_keywords(format);
    assert(0 <= name_column(format) <= 2);
    lemma_parse_rows_all(name_column(format), lines, rows);
    lemma_join_lines_ends_with_break(all);
    lemma_empty_lines_ignored(contents.drop_last(), Seq::<char>::empty());
}

/// A timestamps file of lines that each read as a row `NAME.mp3 START END`,
/// whose first line (lowercased) does not mention all of `start`, `end` and
/// `name`, reads back as exactly those rows in the default column order,
/// whether or not the last line ends with a line break.
pub proof fn lemma_file_without_format_line_reads_back(
    lines: Seq<Seq<char>>,
    rows: Seq<Seq<Seq<char>>>,
)
    requires
        lines.len() == rows.len(),
        lines.len() >= 2,
        !mentions_all_columns(lowercase(lines[0])),
        forall|i: int|
            0 <= i < lines.len() ==> (#[trigger] lines[i]).len() > 0 && !lines[i].contains('\n')
                && row_name_first(lines[i]) == Ok::<_, TimestampError>(rows[i]),
    ensures
        spec_parse_file(join_lines(lines)) == Ok::<_, TimestampError>(
            SpecFileContents { format: default_format(), data: rows },
        ),
        spec_parse_file(join_lines(lines).drop_last()) == Ok::<_, TimestampError>(
            SpecFileContents { format: default_format(), data: rows },
        ),
{
    reveal_strlit("\n");
    assert("\n"@ =~= seq!['\n']);
    lemma_split_joined_lines(lines);
    lemma_drop_empty_keeps(lines);
    assert(file_lines(join_lines(lines)) == lines);
    assert(default_format()[0] == name_word());
    assert(name_column(default_format()) == 0);
    lemma_parse_rows_all(0, lines, rows);
    lemma_join_lines_ends_with_break(lines);
    lemma_empty_lines_ignored(join_lines(lines).drop_last(), Seq::<char>::empty());
}

/// Files with the same non-empty lines read alike.
pub proof fn lemma_same_lines_read_alike(s1: Seq<char>, s2: Seq<char>)
    requires
        file_lines(s1) == file_lines(s2),
    ensures
        spec_parse_file(s1) == spec_parse_file(s2),
{
}

/// Empty lines do not matter: doubling a line break, or adding one at the
/// start or at the end of a file, reads the same.
pub proof fn lemma_empty_lines_ignored(a: Seq<char>, b: Seq<char>)
    ensures
        spec_parse_file(a + seq!['\n', '\n'] + b) == spec_parse_file(a + seq!['\n'] + b),
        spec_parse_file(seq!['\n'] + a) == spec_parse_file(a),
        spec_parse_file(a + seq!['\n']) == spec_parse_file(a),
{
    reveal_strlit("\n");
    let nl = seq!['\n'];
    assert("\n"@ =~= nl);
    let e = Seq::<char>::empty();
    lemma_split_empty(nl);
    assert(drop_empty(seq![e]) =~= seq![]) by {
        assert(seq![e].drop_last() =~= Seq::<Seq<char>>::empty());
        assert(seq![e].last() == e);
        assert(e.len() == 0);
        assert(drop_empty(Seq::<Seq<char>>::empty()) =~= Seq::<Seq<char>>::empty());
    }
    // Doubled line break.
    assert(a + seq!['\n', '\n'] + b =~= a + nl + (e + nl + b));
    lemma_split_concat(a, '\n', e + nl + b);
    lemma_split_concat(e, '\n', b);
    lemma_split_concat(a, '\n', b);
    lemma_drop_empty_concat(split(a, nl), split(e + nl + b, nl));
    lemma_drop_empty_concat(split(e, nl), split(b, nl));
    lemma_drop_empty_concat(split(a, nl), split(b, nl));
    assert(seq![] + drop_empty(split(b, nl)) =~= drop_empty(split(b, nl)));
    assert(file_lines(a + seq!['\n', '\n'] + b) == file_lines(a + seq!['\n'] + b));
    // Line break at the start.
    assert(seq!['\n'] + a =~= e + nl + a);
    lemma_split_concat(e, '\n', a);
    lemma_drop_empty_concat(split(e, nl), split(a, nl));
    assert(seq![] + drop_empty(split(a, nl)) =~= drop_empty(split(a, nl)));
    assert(file_lines(seq!['\n'] + a) == file_lines(a));
    // Line break at the end.
    assert(a + seq!['\n'] =~= a + nl + e);
    lemma_split_concat(a, '\n', e);
    lemma_drop_empty_concat(split(a, nl), split(e, nl));
    assert(drop_empty(split(a, nl)) + seq![] =~= drop_empty(split(a, nl)));
    assert(file_lines(a + seq!['\n']) == file_lines(a));
}

/// The format line is read without regard to letter case: two files that
/// differ only in a first line that declares the columns read alike when
/// the two first lines lowercase alike.
pub proof fn lemma_format_line_case_ignored(s1: Seq<char>, s2: Seq<char>)
    requires
        file_lines(s1).len() > 0,
        file_lines(s2).len() == file_lines(s1).len(),
        file_lines(s1).skip(1) == file_lines(s2).skip(1),
        lowercase(file_lines(s1)[0]) == lowercase(file_lines(s2)[0]),
        mentions_all_columns(lowercase(file_lines(s1)[0])),
    ensures
        spec_parse_file(s1) == spec_parse_file(s2),
{
}

/// The `ffmpeg` command holds each of its four texts verbatim, at fixed
/// places: the input after `ffmpeg -i `, the beginning after
/// ` -acodec libmp3lame -ss `, the end after ` -to `, and the file name
/// between `file:"` and the closing `" -y`; nothing is cut from any of them.
pub proof fn lemma_command_keeps_fields(
    input_path: Seq<char>,
    filename: Seq<char>,
    beginning: Seq<char>,
    end: Seq<char>,
)
    ensures
        ({
            let c = ffmpeg_command(input_path, filename, beginning, end);
            let p: int = 10 + input_path.len() as int;
            let b: int = p + 24;
            let q: int = b + beginning.len() + 5;
            let r: int = q + end.len() + 7;
            &&& c.len() == 50 + input_path.len() + filename.len() + beginning.len() + end.len()
            &&& c.take(10) == seq!['f', 'f', 'm', 'p', 'e', 'g', ' ', '-', 'i', ' ']
            &&& c.subrange(10, p) == input_path
            &&& c.subrange(b, b + beginning.len() as int) == beginning
            &&& c.subrange(b + beginning.len() as int, q) == seq![' ', '-', 't', 'o', ' ']
            &&& c.subrange(q, q + end.len() as int) == end
            &&& c.subrange(r, r + filename.len() as int) == filename
            &&& c.skip(r + filename.len() as int) == seq!['"', ' ', '-', 'y']
        }),
{
    reveal_strlit("ffmpeg -i ");
    reveal_strlit(" -acodec libmp3lame -ss ");
    reveal_strlit(" -to ");
    reveal_strlit(" file:\"");
    reveal_strlit("\" -y");
    let a = "ffmpeg -i "@;
    let m = " -acodec libmp3lame -ss "@;
    let t = " -to "@;
    let f = " file:\""@;
    let z = "\" -y"@;
    assert(a =~= seq!['f', 'f', 'm', 'p', 'e', 'g', ' ', '-', 'i', ' ']);
    assert(m.len() == 24);
    assert(t =~= seq![' ', '-', 't', 'o', ' ']);
    assert(f.len() == 7);
    assert(z =~= seq!['"', ' ', '-', 'y']);
    let c = ffmpeg_command(input_path, filename, beginning, end);
    let p: int = 10 + input_path.len() as int;
    let b: int = p + 24;
    let q: int = b + beginning.len() + 5;
    let r: int = q + end.len() + 7;
    assert(c == a + input_path + m + beginning + t + end + f + filename + z);
    assert(c.take(10) =~= a);
    assert(c.subrange(10, p) =~= input_path);
    assert(c.subrange(b, b + beginning.len() as int) =~= beginning);
    assert(c.subrange(b + beginning.len() as int, q) =~= t);
    assert(c.subrange(q, q + end.len() as int) =~= end);
    assert(c.subrange(r, r + filename.len() as int) =~= filename);
    assert(c.skip(r + filename.len() as int) =~= z);
}

/// Each row's command depends on that row alone: it is the command that a
/// file with the same columns and that single row gives, built from the
/// row's own name, start and end fields (its `-to` time is the row's own end).
pub proof fn lemma_commands_row_by_row(f: SpecFileContents, input_path: Seq<char>, i: int)
    requires
        spec_split_commands(f, input_path) is Some,
        0 <= i < f.data.len(),
    ensures
        spec_split_commands(f, input_path) matches Some(commands) && {
            let s = position(f.format, start_word())->0;
            let e = position(f.format, end_word())->0;
            let n = position(f.format, name_word())->0;
            &&& commands.len() == f.data.len()
            &&& 0 <= s < f.data[i].len()
            &&& 0 <= e < f.data[i].len()
            &&& 0 <= n < f.data[i].len()
            &&& commands[i] == ffmpeg_command(input_path, f.data[i][n], f.data[i][s], f.data[i][e])
            &&& spec_split_commands(
                SpecFileContents { format: f.format, data: seq![f.data[i]] },
                input_path,
            ) == Some(seq![commands[i]])
        },
{
    lemma_position(f.format, start_word());
    lemma_position(f.format, end_word());
    lemma_position(f.format, name_word());
    let one = SpecFileContents { format: f.format, data: seq![f.data[i]] };
    assert(one.data[0] == f.data[i]);
    let cmds = spec_split_commands(f, input_path)->0;
    assert(spec_split_commands(one, input_path) matches Some(c) && c =~= seq![cmds[i]]);
}

/// The number of times `c` occurs in `s`.
pub open spec fn count_char(s: Seq<char>, c: char) -> nat
    decreases s.len(),
{
    if s.len() == 0 {
        0
    } else {
        (if s[0] == c {
            1nat
        } else {
            0nat
        }) + count_char(s.drop_first(), c)
    }
}

/// Removing the first `n` occurrences of `c` keeps every other character in
/// order: text without `c` comes back unchanged, text before the first `c`
/// is kept as it is, and exactly `min(n, count)` characters go.
pub proof fn lemma_without_first_keeps_the_rest(a: Seq<char>, s: Seq<char>, c: char, n: nat)
    requires
        !a.contains(c),
    ensures
        without_first(a, c, n) == a,
        without_first(a + s, c, n) == a + without_first(s, c, n),
        without_first(s, c, n).len() == s.len() - if n < count_char(s, c) {
            n
        } else {
            count_char(s, c)
        },
    decreases a.len() + s.len(),
{
    if a.len() > 0 {
        assert(a[0] != c);
        assert(!a.drop_first().contains(c)) by {
            if a.drop_first().contains(c) {
                let k = choose|k: int| 0 <= k < a.drop_first().len() && a.drop_first()[k] == c;
                assert(a[k + 1] == c);
            }
        }
        lemma_without_first_keeps_the_rest(a.drop_first(), s, c, n);
        assert((a + s).drop_first() =~= a.drop_first() + s);
        assert((a + s)[0] == a[0]);
        assert(seq![a[0]] + a.drop_first() =~= a);
        assert(seq![a[0]] + (a.drop_first() + without_first(s, c, n)) =~= a + without_first(
            s,
            c,
            n,
        ));
    } else {
        assert(a + s =~= s);
        assert(a + without_first(s, c, n) =~= without_first(s, c, n));
        if s.len() > 0 {
            if s[0] == c && n > 0 {
                lemma_without_first_keeps_the_rest(a, s.drop_first(), c, (n - 1) as nat);
            } else {
                lemma_without_first_keeps_the_rest(a, s.drop_first(), c, n);
            }
        }
    }
}

/// The debug form of a path, the path in double quotes, loses exactly its
/// two quotes when the path holds none.
pub proof fn lemma_quoted_path_unquoted(path: Seq<char>)
    requires
        !path.contains('"'),
    ensures
        without_first(seq!['"'] + path + seq!['"'], '"', 2) == path,
{
    let s = seq!['"'] + path + seq!['"'];
    assert(s.drop_first() =~= path + seq!['"']);
    lemma_without_first_keeps_the_rest(path, seq!['"'], '"', 1);
    let q = seq!['"'];
    assert(q.drop_first() =~= Seq::<char>::empty());
    assert(without_first(Seq::<char>::empty(), '"', 0) =~= Seq::<char>::empty());
    assert(without_first(q, '"', 1) =~= Seq::<char>::empty());
    assert(path + Seq::<char>::empty() =~= path);
}

/// Removing `c` counts occurrences from the front: a leading `c` is one of
/// those removed while any remain to be removed, and once none remain the
/// rest of the text is kept as it is.
pub proof fn lemma_without_first_from_the_front(s: Seq<char>, c: char, n: nat)
    ensures
        without_first(seq![c] + s, c, n + 1) == without_first(s, c, n),
        without_first(s, c, 0) == s,
    decreases s.len(),
{
    assert((seq![c] + s).drop_first() =~= s);
    assert((seq![c] + s)[0] == c);
    if s.len() > 0 {
        lemma_without_first_from_the_front(s.drop_first(), c, n);
        assert(seq![s[0]] + s.drop_first() =~= s);
    }
}

/// With the first two quotes taken out, what follows the second quote is
/// kept whole, quotes included: `"a"rest` becomes `a` followed by `rest`.
pub proof fn lemma_after_second_quote_kept(a: Seq<char>, rest: Seq<char>)
    requires
        !a.contains('"'),
    ensures
        without_first(seq!['"'] + a + seq!['"'] + rest, '"', 2) == a + rest,
{
    let q = seq!['"'];
    assert(q + a + q + rest =~= q + (a + (q + rest)));
    lemma_without_first_from_the_front(a + (q + rest), '"', 1);
    lemma_without_first_keeps_the_rest(a, q + rest, '"', 1);
    lemma_without_first_from_the_front(rest, '"', 0);
}

/// When the format names the three columns and every row holds them, there
/// is one command per row.
pub proof fn lemma_commands_exist(f: SpecFileContents, input_path: Seq<char>)
    requires
        f.format.contains(start_word()),
        f.format.contains(end_word()),
        f.format.contains(name_word()),
        forall|i: int| 0 <= i < f.data.len() ==> (#[trigger] f.data[i]).len() >= f.format.len(),
    ensures
        spec_split_commands(f, input_path) matches Some(commands) && commands.len() == f.data.len(),
{
    lemma_position(f.format, start_word());
    lemma_position(f.format, end_word());
    lemma_position(f.format, name_word());
}

} // verus!
