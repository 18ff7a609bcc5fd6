use vcd2v::selection::{classify_map_line, parse_selection, LineClass};

#[test]
fn test_valid() {
    assert_eq!(parse_selection("a.b.x"), Ok((None, "a.b.x")));
}

#[test]
fn test_valid_reassignment() {
    assert_eq!(parse_selection("q=a.b.x"), Ok((Some("q"), "a.b.x")));
}

#[test]
fn test_invalid() {
    assert!(parse_selection("").is_err());
    assert!(parse_selection("=").is_err());
    assert!(parse_selection("q=").is_err());
    assert!(parse_selection("=a.b.x").is_err());
}

#[test]
fn test_error_messages() {
    assert_eq!(parse_selection("").unwrap_err(), "empty signal selection");
    assert_eq!(parse_selection("=").unwrap_err(), "invalid signal selection: =");
    assert_eq!(parse_selection("q=").unwrap_err(), "invalid signal selection: q=");
    assert_eq!(parse_selection("=a.b.x").unwrap_err(), "invalid signal selection: =a.b.x");
    assert_eq!(parse_selection("a=b=c").unwrap_err(), "invalid signal selection: a=b=c");
}

#[test]
fn test_single_segment_path() {
    assert_eq!(parse_selection("x"), Ok((None, "x")));
    assert_eq!(parse_selection("alias=x"), Ok((Some("alias"), "x")));
}

#[test]
fn test_classify_map_line() {
    assert_eq!(classify_map_line(""), LineClass::Skip);
    assert_eq!(classify_map_line("# a comment"), LineClass::Skip);
    assert_eq!(classify_map_line("q=a.b.x"), LineClass::Keep);
    assert_eq!(classify_map_line("a.b.x"), LineClass::Invalid);
}
