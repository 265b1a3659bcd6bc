//! The metadata document codec and font resolution on concrete values.

use site_builder::entries::{DirEntry, Meta};
use site_builder::meta_doc::{parse_meta, render_meta};
use site_builder::site::{classify_fonts, contains_bold};

/// The rendered document is exactly the framed title.
#[test]
fn render_exact_bytes() {
    let m = Meta { title: "A".to_string() };
    assert_eq!(render_meta(&m), b"title = \"A\"\n".to_vec());
    let empty = Meta { title: String::new() };
    assert_eq!(render_meta(&empty), b"title = \"\"\n".to_vec());
}

/// Rendering and parsing round-trips every title, quotes and all.
#[test]
fn meta_round_trip() {
    for title in ["", "plain", "with \"quotes\"", "umlaut äöü", "line\nbreak", "back\\slash"] {
        let m = Meta { title: title.to_string() };
        let doc = render_meta(&m);
        let back = parse_meta(&doc);
        assert_eq!(back.title, title);
    }
}

/// A handwritten intact document parses to its title.
#[test]
fn parse_handwritten_document() {
    let doc = b"title = \"hand made\"\n".to_vec();
    assert_eq!(parse_meta(&doc).title, "hand made");
}

/// Anything without the frame falls back to the default metadata.
#[test]
fn parse_malformed_defaults() {
    for doc in [
        &b""[..],
        &b"title"[..],
        &b"title = \"unclosed"[..],
        &b"Title = \"x\"\n"[..],
        &b"title = \"x\""[..],
        &b"garbage bytes here\n"[..],
    ] {
        assert_eq!(parse_meta(&doc.to_vec()).title, "");
    }
    // an intact frame around invalid UTF-8 defaults too
    let mut doc = b"title = \"".to_vec();
    doc.push(0xff);
    doc.extend_from_slice(b"\"\n");
    assert_eq!(parse_meta(&doc).title, "");
}

/// The bold marker is found by substring, anywhere in the name.
#[test]
fn bold_marker_by_substring() {
    assert!(contains_bold("font-bold.ttf"));
    assert!(contains_bold("bold"));
    assert!(contains_bold("semibold.otf"));
    assert!(!contains_bold("regular.ttf"));
    assert!(!contains_bold("bol"));
    assert!(!contains_bold(""));
    assert!(!contains_bold("BOLD.ttf"));
}

fn font_entry(name: &str, is_file: bool) -> DirEntry {
    DirEntry { name: name.to_string(), path: format!("/s/fonts/{name}"), is_file }
}

/// Files with the marker become the bold variant, the others the normal one.
#[test]
fn fonts_classified_by_name() {
    let fonts = classify_fonts(&vec![
        font_entry("sans-bold.ttf", true),
        font_entry("sans.ttf", true),
    ]);
    assert_eq!(fonts.bold.as_deref(), Some("/s/fonts/sans-bold.ttf"));
    assert_eq!(fonts.normal.as_deref(), Some("/s/fonts/sans.ttf"));
}

/// Directories are not inspected; a later file of the same class wins.
#[test]
fn fonts_skip_directories_and_last_wins() {
    let fonts = classify_fonts(&vec![
        font_entry("old-bold.ttf", true),
        font_entry("bold-dir", false),
        font_entry("new-bold.ttf", true),
    ]);
    assert_eq!(fonts.bold.as_deref(), Some("/s/fonts/new-bold.ttf"));
    assert_eq!(fonts.normal, None);

    let none = classify_fonts(&vec![]);
    assert_eq!(none.bold, None);
    assert_eq!(none.normal, None);
}
