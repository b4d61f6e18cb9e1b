use tagger::note::{extract_title, parse_note, split_frontmatter, title_from_text};

#[test]
fn test_title_from_frontmatter() {
    let (title, body) = parse_note(
        "---\ntitle: \"My Note\"\ntags: []\n---\n\nBody text here.",
        "/tmp/.tmpQ1w2E3",
    );
    assert_eq!(title, "My Note");
    assert_eq!(body.trim(), "Body text here.");
}

#[test]
fn test_title_from_heading() {
    let (title, _) = parse_note("---\ntags: []\n---\n\n# Great Heading\n\nBody.", "/tmp/.tmpR4t5Y6");
    assert_eq!(title, "Great Heading");
}

#[test]
fn test_title_fallback_to_filename() {
    let (title, body) = parse_note("No frontmatter. No heading. Just body.", "/tmp/.tmpU7i8O9");
    assert!(!title.is_empty());
    assert!(body.contains("Just body."));
}

#[test]
fn test_no_frontmatter() {
    let (title, body) = parse_note("# Solo Heading\n\nJust a body.", "/tmp/.tmpP0a1S2");
    assert_eq!(title, "Solo Heading");
    assert!(body.contains("Just a body."));
}

#[test]
fn split_without_opening_fence_keeps_everything() {
    let content = "title: x\n---\nbody";
    assert_eq!(split_frontmatter(content), (None, content));
}

#[test]
fn split_without_closing_fence_keeps_everything() {
    let content = "---\ntitle: x\nbody";
    assert_eq!(split_frontmatter(content), (None, content));
}

#[test]
fn split_drops_fences_and_leading_newlines() {
    assert_eq!(
        split_frontmatter("---\ntitle: x\n---\n\n\nBody\n"),
        (Some("\ntitle: x"), "Body\n")
    );
}

#[test]
fn split_with_empty_body() {
    assert_eq!(split_frontmatter("---\na: 1\n---"), (Some("\na: 1"), ""));
}

#[test]
fn split_closing_fence_may_be_longer() {
    assert_eq!(split_frontmatter("---\na\n-----\nrest"), (Some("\na"), "--\nrest"));
}

#[test]
fn split_keeps_carriage_returns() {
    assert_eq!(
        split_frontmatter("---\r\ntitle: X\r\n---\r\nbody"),
        (Some("\r\ntitle: X\r"), "\r\nbody")
    );
}

#[test]
fn split_with_non_ascii_text() {
    assert_eq!(
        split_frontmatter("---\ntitle: Café\n---\nÜber"),
        (Some("\ntitle: Café"), "Über")
    );
}

#[test]
fn title_line_with_crlf_is_trimmed() {
    let (title, body) = parse_note("---\r\ntitle: X\r\n---\r\nbody", "n.md");
    assert_eq!(title, "X");
    assert_eq!(body, "\r\nbody");
}

#[test]
fn single_quotes_are_stripped() {
    assert_eq!(title_from_text(Some("title: 'Quoted'"), ""), Some("Quoted".to_string()));
}

#[test]
fn double_then_single_quotes_are_stripped() {
    assert_eq!(title_from_text(Some("title: \"'Both'\""), ""), Some("Both".to_string()));
}

#[test]
fn unicode_whitespace_is_trimmed() {
    assert_eq!(
        title_from_text(Some("title:\t Hello\u{00A0} "), ""),
        Some("Hello".to_string())
    );
}

#[test]
fn empty_title_falls_through_to_next_title_line() {
    assert_eq!(
        title_from_text(Some("title: \"\"\ntitle: Second"), "# Heading"),
        Some("Second".to_string())
    );
}

#[test]
fn empty_title_falls_through_to_heading() {
    assert_eq!(title_from_text(Some("title:   "), "text\n# Heading  \n"), Some("Heading".to_string()));
}

#[test]
fn title_key_must_start_the_line() {
    assert_eq!(title_from_text(Some(" title: Indented"), "body"), None);
}

#[test]
fn heading_needs_a_space() {
    assert_eq!(title_from_text(None, "#NoSpace\n## Two\n# One"), Some("One".to_string()));
}

#[test]
fn empty_heading_gives_empty_title() {
    assert_eq!(title_from_text(None, "#  \nbody"), Some(String::new()));
}

#[test]
fn heading_in_frontmatter_is_not_used() {
    assert_eq!(title_from_text(Some("# In Frontmatter"), "no heading"), None);
}

#[test]
fn no_title_in_text() {
    assert_eq!(title_from_text(None, "plain\ntext"), None);
}

#[test]
fn file_stem_is_the_fallback() {
    assert_eq!(extract_title(None, "plain text", "notes/2024/My Idea.md"), "My Idea");
    assert_eq!(extract_title(None, "", "archive.tar.gz"), "archive.tar");
}

#[test]
fn text_title_wins_over_file_stem() {
    assert_eq!(extract_title(Some("title: From FM"), "# From Body", "x/y.md"), "From FM");
    assert_eq!(extract_title(None, "# From Body", "x/y.md"), "From Body");
}

#[test]
fn split_gives_back_what_was_written() {
    let frontmatter = "\ntags: [a, b]\nnote: -- not a fence";
    let body = "Body line\n---\nmore";
    let content = format!("---{}\n---\n\n{}", frontmatter, body);
    assert_eq!(split_frontmatter(&content), (Some(frontmatter), body));
}

#[test]
fn file_stem_fallbacks() {
    assert_eq!(extract_title(None, "No frontmatter. No heading. Just body.", "notes/plain.md"), "plain");
    assert_eq!(extract_title(None, "text", "notes/archive.tar.gz"), "archive.tar");
    assert_eq!(extract_title(None, "", ""), "");
    assert_eq!(extract_title(None, "", "notes/.hidden"), ".hidden");
    assert_eq!(extract_title(None, "", "notes/..x.md"), "..x");
    assert_eq!(extract_title(None, "", "notes/name."), "name");
    assert_eq!(extract_title(None, "", "notes//dir/./"), "dir");
    assert_eq!(extract_title(None, "", "notes/.."), "");
    assert_eq!(extract_title(None, "", "/"), "");
    assert_eq!(extract_title(None, "", "."), "");
}

#[test]
fn parse_note_falls_back_to_file_stem() {
    assert_eq!(
        parse_note("No frontmatter. No heading. Just body.", "notes/plain.md"),
        ("plain".to_string(), "No frontmatter. No heading. Just body.".to_string())
    );
}
