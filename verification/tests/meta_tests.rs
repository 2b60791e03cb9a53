use sitegen::date::MyDate;
use sitegen::post::{Post, PostError, PostMeta, Tag};
use sitegen::text::split_lines;

fn parse(text: &str) -> Result<(PostMeta, usize), PostError> {
    let lines = split_lines(text);
    PostMeta::read_meta("post.md", &lines)
}

/// A stand-in for the external markdown renderer used by these tests.
fn fake_render(s: &str) -> String {
    format!("<md>{}</md>", s)
}

#[test]
fn round_trip_content_file() {
    let text = "slug=hello-world\nauthor=Ada\ntitle=Hello World\ncreated_date=Jan 02, 2024\ntags=intro\n---\n# Hi\n";
    let lines = split_lines(text);
    let (meta, rest) = PostMeta::read_meta("post.md", &lines).unwrap();
    assert_eq!(meta.slug, "hello-world");
    assert_eq!(meta.author, "Ada");
    assert_eq!(meta.title, "Hello World");
    assert_eq!(meta.created_date, MyDate { year: 2024, month: 1, day: 2 });
    assert_eq!(meta.tags, vec![Tag("intro".to_string())]);
    assert!(!meta.draft);
    assert_eq!(meta.blurb, None);
    assert_eq!(meta.modified_date, None);
    assert_eq!(meta.newer_post, None);
    assert_eq!(meta.older_post, None);
    assert_eq!(meta.input_path, "post.md");
    let body = Post::read_body(&lines, rest);
    assert_eq!(body, "# Hi");
    let post = Post::assemble(meta, fake_render(&body));
    assert_eq!(post.rendered_html, "<md># Hi</md>");
    assert_eq!(post.meta.slug, "hello-world");
}

#[test]
fn tags_split_and_trim() {
    let (meta, _) = parse("slug=s\nauthor=a\ntitle=t\ncreated_date=Jan 02, 2024\ntags=rust, go , \n---\n").unwrap();
    let expect: Vec<Tag> = vec![
        Tag("rust".to_string()),
        Tag("go".to_string()),
        Tag("".to_string()),
    ];
    assert_eq!(meta.tags, expect);
}

#[test]
fn absent_tags_yield_one_empty_tag() {
    let (meta, _) = parse("slug=s\nauthor=a\ntitle=t\ncreated_date=Jan 02, 2024\n---\n").unwrap();
    assert_eq!(meta.tags, vec![Tag("".to_string())]);
}

#[test]
fn draft_banana_is_not_draft() {
    let (meta, _) = parse("slug=s\nauthor=a\ntitle=t\ncreated_date=Jan 02, 2024\ndraft=banana\n---\n").unwrap();
    assert!(!meta.draft);
}

#[test]
fn draft_true_and_false() {
    let (meta, _) = parse("slug=s\nauthor=a\ntitle=t\ncreated_date=Jan 02, 2024\ndraft=true\n---\n").unwrap();
    assert!(meta.draft);
    let (meta, _) = parse("slug=s\nauthor=a\ntitle=t\ncreated_date=Jan 02, 2024\ndraft=false\n---\n").unwrap();
    assert!(!meta.draft);
}

#[test]
fn missing_slug_names_slug() {
    let e = parse("author=a\ntitle=t\ncreated_date=Jan 02, 2024\n---\n").unwrap_err();
    assert_eq!(
        e,
        PostError::MissingField { key: "slug".to_string(), path: "post.md".to_string() }
    );
}

#[test]
fn missing_other_required_fields() {
    let e = parse("slug=s\ntitle=t\ncreated_date=Jan 02, 2024\n---\n").unwrap_err();
    assert_eq!(
        e,
        PostError::MissingField { key: "author".to_string(), path: "post.md".to_string() }
    );
    let e = parse("slug=s\nauthor=a\ncreated_date=Jan 02, 2024\n---\n").unwrap_err();
    assert_eq!(
        e,
        PostError::MissingField { key: "title".to_string(), path: "post.md".to_string() }
    );
    let e = parse("slug=s\nauthor=a\ntitle=t\n---\n").unwrap_err();
    assert_eq!(
        e,
        PostError::MissingField { key: "created_date".to_string(), path: "post.md".to_string() }
    );
}

#[test]
fn malformed_line_without_separator() {
    let e = parse("slug=s\nthis line has no separator\n---\n").unwrap_err();
    assert_eq!(
        e,
        PostError::MalformedLine {
            line: "this line has no separator".to_string(),
            path: "post.md".to_string(),
        }
    );
}

#[test]
fn bad_created_date_carries_text() {
    let e = parse("slug=s\nauthor=a\ntitle=t\ncreated_date=not a date\n---\n").unwrap_err();
    assert_eq!(
        e,
        PostError::DateFormat { text: "not a date".to_string(), path: "post.md".to_string() }
    );
}

#[test]
fn modified_date_present_must_parse() {
    let e = parse(
        "slug=s\nauthor=a\ntitle=t\ncreated_date=Jan 02, 2024\nmodified_date=banana\n---\n",
    )
    .unwrap_err();
    assert_eq!(e, PostError::InvalidModifiedDate { path: "post.md".to_string() });
    let (meta, _) = parse(
        "slug=s\nauthor=a\ntitle=t\ncreated_date=Jan 02, 2024\nmodified_date=Mar 05, 2024\n---\n",
    )
    .unwrap();
    assert_eq!(meta.modified_date, Some(MyDate { year: 2024, month: 3, day: 5 }));
}

#[test]
fn invalid_modified_date_reported_before_missing_slug() {
    let e = parse("author=a\nmodified_date=banana\n---\n").unwrap_err();
    assert_eq!(e, PostError::InvalidModifiedDate { path: "post.md".to_string() });
}

#[test]
fn duplicate_keys_last_wins() {
    let (meta, _) =
        parse("slug=first\nslug=second\nauthor=a\ntitle=t\ncreated_date=Jan 02, 2024\n---\n")
            .unwrap();
    assert_eq!(meta.slug, "second");
}

#[test]
fn comments_and_blank_lines_skipped() {
    let (meta, _) = parse(
        "# a comment without separator\n\n   \nslug=s\nauthor=a\ntitle=t\ncreated_date=Jan 02, 2024\n---\n",
    )
    .unwrap();
    assert_eq!(meta.slug, "s");
}

#[test]
fn keys_are_verbatim_values_trimmed() {
    // the key keeps its surrounding spaces, so " slug" is not "slug"
    let e = parse(" slug=s\nauthor=a\ntitle=t\ncreated_date=Jan 02, 2024\n---\n").unwrap_err();
    assert_eq!(
        e,
        PostError::MissingField { key: "slug".to_string(), path: "post.md".to_string() }
    );
    // the value is trimmed
    let (meta, _) = parse("slug=   padded   \nauthor=a\ntitle=t\ncreated_date=Jan 02, 2024\n---\n")
        .unwrap();
    assert_eq!(meta.slug, "padded");
}

#[test]
fn description_maps_to_blurb() {
    let (meta, _) = parse(
        "slug=s\nauthor=a\ntitle=t\ncreated_date=Jan 02, 2024\ndescription=A short blurb\n---\n",
    )
    .unwrap();
    assert_eq!(meta.blurb, Some("A short blurb".to_string()));
}

#[test]
fn header_without_terminator_leaves_empty_body() {
    let text = "slug=s\nauthor=a\ntitle=t\ncreated_date=Jan 02, 2024\n";
    let lines = split_lines(text);
    let (_, rest) = PostMeta::read_meta("post.md", &lines).unwrap();
    assert_eq!(rest, lines.len());
    assert_eq!(Post::read_body(&lines, rest), "");
}

#[test]
fn body_preserves_lines_after_terminator() {
    let text = "slug=s\nauthor=a\ntitle=t\ncreated_date=Jan 02, 2024\n---\nline one\n\nline three\n";
    let lines = split_lines(text);
    let (_, rest) = PostMeta::read_meta("post.md", &lines).unwrap();
    assert_eq!(Post::read_body(&lines, rest), "line one\n\nline three");
}

#[test]
fn crlf_lines_are_handled() {
    let text = "slug=s\r\nauthor=a\r\ntitle=t\r\ncreated_date=Jan 02, 2024\r\n---\r\nbody\r\n";
    let lines = split_lines(text);
    let (meta, rest) = PostMeta::read_meta("post.md", &lines).unwrap();
    assert_eq!(meta.slug, "s");
    assert_eq!(Post::read_body(&lines, rest), "body");
}
