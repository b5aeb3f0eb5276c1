use plain_tickets::domain::{Tag, Title, TitleError};

// ── Title::from_str ───────────────────────────────────────────────────────

#[test]
fn title_valid() {
    let t: Title = "Fix login bug".parse().unwrap();
    assert_eq!(t.to_string(), "Fix login bug");
}

#[test]
fn title_trims_whitespace() {
    let t: Title = "  hello world  ".parse().unwrap();
    assert_eq!(t.to_string(), "hello world");
}

#[test]
fn title_empty_is_err() {
    assert!("".parse::<Title>().is_err());
    assert!("   ".parse::<Title>().is_err());
}

#[test]
fn title_invalid_chars_is_err() {
    assert!("foo!".parse::<Title>().is_err());
    assert!("foo@bar".parse::<Title>().is_err());
    assert!("foo/bar".parse::<Title>().is_err());
}

#[test]
fn title_allowed_special_chars() {
    assert!("fix_login-bug.v2".parse::<Title>().is_ok());
}

#[test]
fn title_over_120_chars_is_err() {
    let long = "a".repeat(121);
    assert!(long.parse::<Title>().is_err());
}

#[test]
fn title_exactly_120_chars_is_ok() {
    let exactly = "a".repeat(120);
    assert!(exactly.parse::<Title>().is_ok());
}

#[test]
fn title_limit_counts_characters_not_bytes() {
    let accented = "\u{e9}".repeat(120);
    assert!(accented.parse::<Title>().is_ok());
    let over = "\u{e9}".repeat(121);
    assert!(matches!(Title::parse(&over), Err(TitleError::TooLong(121))));
}

// ── Title::slugify ────────────────────────────────────────────────────────

#[test]
fn slugify_lowercases() {
    let t: Title = "Fix Login Bug".parse().unwrap();
    assert_eq!(t.slugify(), "fix-login-bug");
}

#[test]
fn slugify_replaces_spaces_with_dashes() {
    let t: Title = "hello world".parse().unwrap();
    assert_eq!(t.slugify(), "hello-world");
}

#[test]
fn slugify_collapses_consecutive_separators() {
    let t: Title = "foo - bar".parse().unwrap();
    assert_eq!(t.slugify(), "foo-bar");
}

#[test]
fn slugify_handles_underscores_and_dots() {
    let t: Title = "foo_bar.baz".parse().unwrap();
    assert_eq!(t.slugify(), "foo-bar-baz");
}

// ── Tag::from_str ─────────────────────────────────────────────────────────

#[test]
fn tag_valid() {
    assert!("auth".parse::<Tag>().is_ok());
    assert!("my-tag".parse::<Tag>().is_ok());
    assert!("tag_1".parse::<Tag>().is_ok());
}

#[test]
fn tag_empty_is_err() {
    assert!("".parse::<Tag>().is_err());
}

#[test]
fn tag_space_is_err() {
    assert!("foo bar".parse::<Tag>().is_err());
}

#[test]
fn tag_special_chars_are_err() {
    assert!("foo!".parse::<Tag>().is_err());
    assert!("foo.bar".parse::<Tag>().is_err());
}

// ── Ticket file framing ───────────────────────────────────────────────────

use plain_tickets::ticket_file::{compose_ticket, split_front_matter, FrameError};

fn minimal_ticket_str() -> &'static str {
    "---\nid: abc123\ntitle: My ticket\ntype: task\nstatus: draft\ntags: []\nparent: null\nblocked_by: []\ncreated_at: 2024-01-01T00:00:00Z\nupdated_at: 2024-01-01T00:00:00Z\n---\n"
}

#[test]
fn ticket_parses_without_body() {
    let (yaml, body) = split_front_matter(minimal_ticket_str()).unwrap();
    assert!(yaml.lines().any(|l| l == "title: My ticket"));
    assert!(body.is_empty());
}

#[test]
fn ticket_parses_with_body() {
    let s = format!("{}\nSome body text.", minimal_ticket_str());
    let (_, body) = split_front_matter(&s).unwrap();
    assert_eq!(body, "Some body text.");
}

#[test]
fn ticket_display_round_trips() {
    let text = minimal_ticket_str();
    let (yaml, body) = split_front_matter(text).unwrap();
    assert_eq!(compose_ticket(&format!("{yaml}\n"), &body), text);
}

#[test]
fn ticket_display_round_trips_with_body() {
    let s = format!("{}\nSome body text.", minimal_ticket_str());
    let (yaml, body) = split_front_matter(&s).unwrap();
    assert_eq!(compose_ticket(&format!("{yaml}\n"), &body), s);
}

#[test]
fn ticket_missing_closing_delimiter_is_err() {
    let bad = "---\nid: abc123\ntitle: My ticket\n";
    assert_eq!(split_front_matter(bad), Err(FrameError::MissingClosingDelimiter));
}

#[test]
fn ticket_malformed_yaml_is_err() {
    // The frame is intact; it is the YAML inside it that does not parse.
    let bad = "---\nnot: valid: yaml: here:\n---\n";
    let (yaml, _) = split_front_matter(bad).unwrap();
    assert!(serde_yaml::from_str::<serde_yaml::Value>(&yaml).is_err());
}

#[test]
fn split_drops_blank_lines_before_body() {
    let s = format!("{}\n\n\nbody", minimal_ticket_str());
    let (_, body) = split_front_matter(&s).unwrap();
    assert_eq!(body, "body");
}

#[test]
fn frame_error_message_is_exact() {
    assert_eq!(
        FrameError::MissingClosingDelimiter.message(),
        "missing front matter closing delimiter"
    );
}

#[test]
fn slug_of_a_slug_is_itself() {
    let t: Title = "Fix Login Bug".parse().unwrap();
    let s = t.slugify();
    let again: Title = s.parse().unwrap();
    assert_eq!(again.slugify(), s);
}

#[test]
fn slug_ignores_case_and_separators() {
    let a: Title = "Foo bar".parse().unwrap();
    let b: Title = "foo__-bar.".parse().unwrap();
    let c: Title = "-FOO.bar".parse().unwrap();
    assert_eq!(a.slugify(), "foo-bar");
    assert_eq!(b.slugify(), a.slugify());
    assert_eq!(c.slugify(), a.slugify());
}
