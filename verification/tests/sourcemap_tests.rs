//! Tests for the source map: file lookups, span-to-file resolution in
//! span order, and literal text extraction with its error taxonomy.

use thorns::sourcemap::SourceError;
use thorns::sourcemap::SourceMap;
use thorns::sourcemap::SourceMapEntry;
use thorns::trace::Span;

fn entry(name: &str, low: u32, high: u32, text: &str) -> SourceMapEntry {
    SourceMapEntry {
        source: name.to_string(),
        span: Span::new(low, high),
        text: text.as_bytes().to_vec(),
    }
}

#[test]
fn get_file_and_get_files() {
    let sm = SourceMap::new(vec![entry("a.br", 0, 10, "aaaaaaaaaa"), entry(
        "b.br",
        10,
        20,
        "bbbbbbbbbb",
    )]);
    assert_eq!(sm.get_file(0), "a.br");
    assert_eq!(sm.get_file(1), "b.br");
    let files = sm.get_files();
    assert_eq!(files.len(), 2);
    assert_eq!(files[0].0, 0);
    assert_eq!(files[0].1, "a.br");
    assert_eq!(files[1].0, 1);
    assert_eq!(files[1].1, "b.br");
}

#[test]
fn get_file_offset_range_finds_named_file() {
    let sm = SourceMap::new(vec![entry("a.br", 0, 10, "aaaaaaaaaa"), entry(
        "b.br",
        10,
        20,
        "bbbbbbbbbb",
    )]);
    let r = sm.get_file_offset_range("b.br").unwrap();
    assert_eq!(*r, Span::new(10, 20));
}

#[test]
fn get_file_offset_range_reports_missing_file() {
    let sm = SourceMap::new(vec![entry("a.br", 0, 10, "aaaaaaaaaa")]);
    let err = sm.get_file_offset_range("missing.br").unwrap_err();
    assert_eq!(err, "missing.br not in source map");
}

#[test]
fn files_in_span_come_in_span_order() {
    // Entries listed out of span order are returned sorted by range.
    let sm = SourceMap::new(vec![
        entry("late.br", 20, 30, "cccccccccc"),
        entry("early.br", 0, 10, "aaaaaaaaaa"),
        entry("mid.br", 10, 20, "bbbbbbbbbb"),
    ]);
    let files = sm.files_in_span(Span::new(0, 30));
    assert_eq!(files.len(), 3);
    assert_eq!(files[0].0, "early.br");
    assert_eq!(files[0].1, Span::new(0, 10));
    assert_eq!(files[1].0, "mid.br");
    assert_eq!(files[2].0, "late.br");
}

#[test]
fn files_in_span_keeps_listed_order_on_equal_ranges() {
    let sm = SourceMap::new(vec![entry("first.br", 0, 10, "aaaaaaaaaa"), entry(
        "second.br",
        0,
        10,
        "bbbbbbbbbb",
    )]);
    let files = sm.files_in_span(Span::new(0, 5));
    assert_eq!(files.len(), 2);
    assert_eq!(files[0].0, "first.br");
    assert_eq!(files[1].0, "second.br");
}

#[test]
fn files_in_span_filters_disjoint_files() {
    let sm = SourceMap::new(vec![entry("a.br", 0, 10, "aaaaaaaaaa"), entry(
        "b.br",
        20,
        30,
        "bbbbbbbbbb",
    )]);
    let files = sm.files_in_span(Span::new(12, 18));
    assert_eq!(files.len(), 0);
}

#[test]
fn text_in_span_extracts_single_file_slice() {
    let sm = SourceMap::new(vec![entry("a.br", 0, 10, "0123456789")]);
    let text = sm.text_in_span(Span::new(2, 5)).unwrap();
    assert_eq!(text, "234");
}

#[test]
fn text_in_span_joins_files_in_span_order() {
    let sm = SourceMap::new(vec![
        entry("b.br", 10, 20, "bbbbbbbbbb"),
        entry("a.br", 0, 10, "aaaaaaaaaa"),
    ]);
    let text = sm.text_in_span(Span::new(5, 15)).unwrap();
    assert_eq!(text, "aaaaabbbbb");
}

#[test]
fn text_in_span_reports_uncovered_span() {
    let sm = SourceMap::new(vec![entry("a.br", 0, 10, "aaaaaaaaaa")]);
    let err = sm.text_in_span(Span::new(100, 200)).unwrap_err();
    assert_eq!(err, SourceError::SourceNotFound(Span::new(100, 200)));
}

#[test]
fn text_in_span_reports_short_file_contents() {
    // The file's recorded range promises ten bytes but only three exist.
    let sm = SourceMap::new(vec![entry("a.br", 0, 10, "abc")]);
    let err = sm.text_in_span(Span::new(0, 8)).unwrap_err();
    assert_eq!(err, SourceError::UnexpectedEof);
}

#[test]
fn text_in_span_reports_invalid_utf8() {
    let sm = SourceMap::new(vec![SourceMapEntry {
        source: "bin.br".to_string(),
        span: Span::new(0, 4),
        text: vec![0xff, 0xfe, 0x41, 0x42],
    }]);
    let err = sm.text_in_span(Span::new(0, 4)).unwrap_err();
    assert_eq!(err, SourceError::FromUtf8Error);
}

#[test]
fn text_in_span_rejects_inverted_span() {
    let sm = SourceMap::new(vec![entry("a.br", 0, 10, "aaaaaaaaaa")]);
    let err = sm.text_in_span(Span::new(7, 3)).unwrap_err();
    assert_eq!(err, SourceError::InvalidSpan(Span::new(7, 3)));
}

#[test]
fn text_in_span_decodes_multibyte_utf8() {
    let content = "héllo wörld";
    let len = content.len() as u32;
    let sm = SourceMap::new(vec![entry("u.br", 0, len, content)]);
    let text = sm.text_in_span(Span::new(0, len)).unwrap();
    assert_eq!(text, content);
}

#[test]
fn text_in_span_at_boundary_offset_is_empty() {
    let sm = SourceMap::new(vec![
        entry("a.br", 0, 10, "aaaaaaaaaa"),
        entry("b.br", 10, 20, "bbbbbbbbbb"),
    ]);
    // The inclusive boundary offset touches both files but covers no
    // bytes in either.
    let text = sm.text_in_span(Span::new(10, 10)).unwrap();
    assert_eq!(text, "");
}

#[test]
fn cli_reports_configured_target() {
    let cli = thorns::cli::Cli::new("./target".to_string());
    assert_eq!(cli.target(), "./target");
}
