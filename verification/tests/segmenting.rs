use grepview::base::Project;
use grepview::decode::ParseError;
use grepview::ripgrep;
use grepview::segment::lines_to_snippets;

const OPEN: &[u8] = b"\x1b[m\x1b[31m\x1b[1m";
const RESET: &[u8] = b"\x1b[m";

fn header_line(path: &[u8]) -> Vec<u8> {
    let mut v = b"\x1b[m\x1b[35m".to_vec();
    v.extend_from_slice(path);
    v.extend_from_slice(RESET);
    v
}

fn content_line(num: &str, text: &[u8]) -> Vec<u8> {
    let mut v = b"\x1b[m\x1b[32m".to_vec();
    v.extend_from_slice(num.as_bytes());
    v.extend_from_slice(RESET);
    v.push(b':');
    v.extend_from_slice(text);
    v
}

fn project() -> Project {
    Project::new(&b"demo".to_vec(), &b"/srv/demo".to_vec())
}

#[test]
fn segmenter_splits_blocks_and_files() {
    let stream = vec![
        header_line(b"src/a.rs"),
        content_line("5", b"five"),
        content_line("6", b"six"),
        b"--".to_vec(),
        content_line("20", b"twenty"),
        content_line("21", b"twentyone"),
        header_line(b"src/b.rs"),
        content_line("1", b"one"),
    ];
    let snippets = lines_to_snippets(&project(), &stream).unwrap();
    assert_eq!(snippets.len(), 3);

    assert_eq!(snippets[0].file.path, b"src/a.rs".to_vec());
    assert_eq!(snippets[0].line_number, 5);
    assert_eq!(snippets[0].lines.len(), 2);
    assert_eq!(snippets[0].lines[0].full, b"five".to_vec());
    assert_eq!(snippets[0].lines[1].full, b"six".to_vec());

    assert_eq!(snippets[1].file.path, b"src/a.rs".to_vec());
    assert_eq!(snippets[1].line_number, 20);
    assert_eq!(snippets[1].lines.len(), 2);
    assert_eq!(snippets[1].lines[0].full, b"twenty".to_vec());
    assert_eq!(snippets[1].lines[1].full, b"twentyone".to_vec());

    assert_eq!(snippets[2].file.path, b"src/b.rs".to_vec());
    assert_eq!(snippets[2].line_number, 1);
    assert_eq!(snippets[2].lines.len(), 1);
    assert_eq!(snippets[2].lines[0].full, b"one".to_vec());
}

#[test]
fn segmenter_decodes_highlights_in_content() {
    let mut text = b"let ".to_vec();
    text.extend_from_slice(OPEN);
    text.extend_from_slice(b"x");
    text.extend_from_slice(RESET);
    text.extend_from_slice(b" = 0;");
    let stream = vec![header_line(b"m.rs"), content_line("3", &text)];
    let snippets = lines_to_snippets(&project(), &stream).unwrap();
    assert_eq!(snippets.len(), 1);
    assert_eq!(snippets[0].lines[0].full, b"let x = 0;".to_vec());
    assert_eq!(snippets[0].lines[0].matches, vec![(4, 5)]);
}

#[test]
fn segmenter_ignores_unknown_lines() {
    let stream = vec![
        b"noise".to_vec(),
        header_line(b"a.rs"),
        b"more noise".to_vec(),
        content_line("2", b"body"),
    ];
    let snippets = lines_to_snippets(&project(), &stream).unwrap();
    assert_eq!(snippets.len(), 1);
    assert_eq!(snippets[0].line_number, 2);
}

#[test]
fn segmenter_empty_stream_gives_no_snippets() {
    let stream: Vec<Vec<u8>> = Vec::new();
    let snippets = lines_to_snippets(&project(), &stream).unwrap();
    assert!(snippets.is_empty());
}

#[test]
fn segmenter_boundary_without_pending_emits_nothing() {
    let stream = vec![b"--".to_vec(), header_line(b"a.rs"), content_line("7", b"x")];
    let snippets = lines_to_snippets(&project(), &stream).unwrap();
    assert_eq!(snippets.len(), 1);
    assert_eq!(snippets[0].line_number, 7);
}

#[test]
fn content_before_header_is_error() {
    let stream = vec![content_line("5", b"text")];
    let err = lines_to_snippets(&project(), &stream).unwrap_err();
    assert_eq!(err, ParseError::MissingFileHeader);
}

#[test]
fn bad_line_number_is_error() {
    let stream = vec![header_line(b"a.rs"), content_line("12a", b"text")];
    let err = lines_to_snippets(&project(), &stream).unwrap_err();
    assert_eq!(err, ParseError::InvalidLineNumber);
}

#[test]
fn content_without_number_end_is_error() {
    let mut bad = b"\x1b[m\x1b[32m".to_vec();
    bad.extend_from_slice(b"15");
    let stream = vec![header_line(b"a.rs"), bad];
    let err = lines_to_snippets(&project(), &stream).unwrap_err();
    assert_eq!(err, ParseError::MalformedContentLine);
}

#[test]
fn short_header_is_error() {
    let stream = vec![b"\x1b[m\x1b[35m".to_vec()];
    let err = lines_to_snippets(&project(), &stream).unwrap_err();
    assert_eq!(err, ParseError::MalformedHeader);
}

#[test]
fn unterminated_highlight_in_content_is_error() {
    let mut text = b"ab".to_vec();
    text.extend_from_slice(OPEN);
    text.extend_from_slice(b"cd");
    let stream = vec![header_line(b"a.rs"), content_line("9", &text)];
    let err = lines_to_snippets(&project(), &stream).unwrap_err();
    assert_eq!(err, ParseError::UnterminatedHighlight);
}

#[test]
fn search_matches_segmenter() {
    let stream = vec![header_line(b"a.rs"), content_line("4", b"body")];
    let p = project();
    let snippets = ripgrep::search(&p, &stream).unwrap();
    assert_eq!(snippets.len(), 1);
    assert_eq!(snippets[0].file.name, b"a.rs".to_vec());
    assert_eq!(snippets[0].line_number, 4);
}

#[test]
fn file_view_without_matches_covers_whole_file() {
    let p = project();
    let raw: Vec<Vec<u8>> = Vec::new();
    let fallback = vec![b"first".to_vec(), b"second".to_vec(), b"third".to_vec()];
    let snippet = ripgrep::file(&p, &b"src/lib.rs".to_vec(), &raw, &fallback).unwrap();
    assert_eq!(snippet.line_number, 0);
    assert_eq!(snippet.file.path, b"src/lib.rs".to_vec());
    assert_eq!(snippet.lines.len(), 3);
    assert_eq!(snippet.lines[0].full, b"first".to_vec());
    assert_eq!(snippet.lines[1].full, b"second".to_vec());
    assert_eq!(snippet.lines[2].full, b"third".to_vec());
    for line in &snippet.lines {
        assert!(line.matches.is_empty());
    }
}

#[test]
fn file_view_with_matches_uses_tool_output() {
    let p = project();
    let mut text = b"the ".to_vec();
    text.extend_from_slice(OPEN);
    text.extend_from_slice(b"needle");
    text.extend_from_slice(RESET);
    let raw = vec![header_line(b"src/lib.rs"), content_line("1", b"fn x() {}"), content_line("2", &text)];
    let fallback: Vec<Vec<u8>> = Vec::new();
    let snippet = ripgrep::file(&p, &b"src/lib.rs".to_vec(), &raw, &fallback).unwrap();
    assert_eq!(snippet.line_number, 0);
    assert_eq!(snippet.lines.len(), 2);
    assert_eq!(snippet.lines[0].full, b"fn x() {}".to_vec());
    assert_eq!(snippet.lines[1].full, b"the needle".to_vec());
    assert_eq!(snippet.lines[1].matches, vec![(4, 10)]);
}
