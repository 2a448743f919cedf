use grepview::decode::{parse_line, ParseError};

const OPEN: &[u8] = b"\x1b[m\x1b[31m\x1b[1m";
const RESET: &[u8] = b"\x1b[m";

fn highlighted(text: &[u8]) -> Vec<u8> {
    let mut v = OPEN.to_vec();
    v.extend_from_slice(text);
    v.extend_from_slice(RESET);
    v
}

#[test]
fn decode_plain_line_is_identity() {
    let raw = b"fn main() { println!(\"hi\"); }".to_vec();
    let line = parse_line(&raw).unwrap();
    assert_eq!(line.full, raw);
    assert!(line.matches.is_empty());
}

#[test]
fn decode_empty_line() {
    let raw: Vec<u8> = Vec::new();
    let line = parse_line(&raw).unwrap();
    assert!(line.full.is_empty());
    assert!(line.matches.is_empty());
}

#[test]
fn decode_single_highlight() {
    let mut raw = b"let ".to_vec();
    raw.extend_from_slice(&highlighted(b"query"));
    raw.extend_from_slice(b" = 1;");
    let line = parse_line(&raw).unwrap();
    assert_eq!(line.full, b"let query = 1;".to_vec());
    assert_eq!(line.matches, vec![(4, 9)]);
    assert_eq!(&line.full[4..9], b"query");
}

#[test]
fn decode_two_highlights_round_trip() {
    let mut raw = b"ab".to_vec();
    raw.extend_from_slice(&highlighted(b"foo"));
    raw.extend_from_slice(b"cd");
    raw.extend_from_slice(&highlighted(b"ba"));
    raw.extend_from_slice(b"z");
    let line = parse_line(&raw).unwrap();
    assert_eq!(line.full, b"abfoocdbaz".to_vec());
    assert_eq!(line.matches.len(), 2);
    assert_eq!(line.matches, vec![(2, 5), (7, 9)]);
    assert_eq!(&line.full[2..5], b"foo");
    assert_eq!(&line.full[7..9], b"ba");
}

#[test]
fn decode_adjacent_highlights_stay_ordered() {
    let mut raw = highlighted(b"one");
    raw.extend_from_slice(&highlighted(b"two"));
    let line = parse_line(&raw).unwrap();
    assert_eq!(line.full, b"onetwo".to_vec());
    assert_eq!(line.matches, vec![(0, 3), (3, 6)]);
}

#[test]
fn decode_multibyte_text_survives() {
    let mut raw = "prefix ".as_bytes().to_vec();
    raw.extend_from_slice(&highlighted("naïve".as_bytes()));
    raw.extend_from_slice(" ß suffix".as_bytes());
    let line = parse_line(&raw).unwrap();
    assert_eq!(line.full, "prefix naïve ß suffix".as_bytes().to_vec());
    assert_eq!(line.matches.len(), 1);
    let (a, b) = line.matches[0];
    assert_eq!(&line.full[a..b], "naïve".as_bytes());
}

#[test]
fn decode_unterminated_highlight_is_error() {
    let mut raw = b"ab".to_vec();
    raw.extend_from_slice(OPEN);
    raw.extend_from_slice(b"foo");
    let err = parse_line(&raw).unwrap_err();
    assert_eq!(err, ParseError::UnterminatedHighlight);
}

#[test]
fn decode_open_at_end_is_error() {
    let raw = OPEN.to_vec();
    let err = parse_line(&raw).unwrap_err();
    assert_eq!(err, ParseError::UnterminatedHighlight);
}
