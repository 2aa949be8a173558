use content_index::content::{get_read_time, parse_frontmatter, split_frontmatter, ParseError};
use content_index::normalize::normalize_image_url;

fn post_doc() -> &'static str {
    "---\ntitle: Hello\ndate: 2024-01-01\nauthor: Me\ndescription: First post\nimage_url: ./a.png\ntags: [rust, web]\n---\nBody text"
}

#[test]
fn parse_valid_document() {
    let (meta, body) = parse_frontmatter(post_doc()).unwrap();
    assert_eq!(meta.id, "");
    assert_eq!(meta.title, "Hello");
    assert_eq!(meta.date, "2024-01-01");
    assert_eq!(meta.author, "Me");
    assert_eq!(meta.description, "First post");
    assert_eq!(meta.image_url, "./a.png");
    assert_eq!(meta.tags, vec!["rust".to_string(), "web".to_string()]);
    assert_eq!(body, "Body text");
}

#[test]
fn parse_is_pure() {
    let a = parse_frontmatter(post_doc());
    let b = parse_frontmatter(post_doc());
    assert_eq!(a, b);
}

#[test]
fn parse_missing_frontmatter() {
    assert_eq!(
        parse_frontmatter("title: Hello\n"),
        Err(ParseError::MissingFrontmatter)
    );
    assert_eq!(parse_frontmatter(""), Err(ParseError::MissingFrontmatter));
}

#[test]
fn parse_missing_second_delimiter() {
    let doc = "---\ntitle: Hello\ndate: 2024-01-01\n";
    assert_eq!(parse_frontmatter(doc), Err(ParseError::MalformedFrontmatter));
}

#[test]
fn parse_missing_required_field() {
    let doc = "---\ntitle: Hello\nauthor: Me\ndescription: D\nimage_url: a.png\ntags: []\n---\nBody";
    assert_eq!(
        parse_frontmatter(doc),
        Err(ParseError::SchemaValidationError("date".to_string()))
    );
}

#[test]
fn parse_ignores_unknown_fields_and_id() {
    let doc = "---\nid: sneaky\nextra: ignored\ntitle: T\ndate: D\nauthor: A\ndescription: X\nimage_url: i.png\ntags: []\n---\nB";
    let (meta, _) = parse_frontmatter(doc).unwrap();
    assert_eq!(meta.id, "");
    assert_eq!(meta.title, "T");
    assert!(meta.tags.is_empty());
}

#[test]
fn parse_block_list_and_quotes() {
    let doc = "---\ntitle: \"Hello: World\"\ndate: '2024-02-03'\nauthor: Me\ndescription: D\nimage_url: a.png\ntags:\n- alpha\n- beta\n---\nB";
    let (meta, _) = parse_frontmatter(doc).unwrap();
    assert_eq!(meta.title, "Hello: World");
    assert_eq!(meta.date, "2024-02-03");
    assert_eq!(meta.tags, vec!["alpha".to_string(), "beta".to_string()]);
}

#[test]
fn parse_skips_blank_and_comment_lines() {
    let doc = "---\n\n# a comment\ntitle: T\ndate: D\nauthor: A\ndescription: X\nimage_url: i\ntags: []\n---\nB";
    let (meta, _) = parse_frontmatter(doc).unwrap();
    assert_eq!(meta.title, "T");
}

#[test]
fn body_keeps_later_dashes() {
    let doc = "---\ntitle: T\ndate: D\nauthor: A\ndescription: X\nimage_url: i\ntags: []\n---\nabove\n\n---\n\nbelow";
    let (_, body) = parse_frontmatter(doc).unwrap();
    assert_eq!(body, "above\n\n---\n\nbelow");
}

#[test]
fn split_reports_parts() {
    let (meta, body) = split_frontmatter("---abc---def").unwrap();
    assert_eq!(meta, "abc");
    assert_eq!(body, "def");
}

#[test]
fn normalize_keeps_absolute_urls() {
    assert_eq!(
        normalize_image_url("https://example.com/a.png", "posts", "p1"),
        "https://example.com/a.png"
    );
    assert_eq!(
        normalize_image_url("http://example.com/a.png", "projects", "p2"),
        "http://example.com/a.png"
    );
    assert_eq!(normalize_image_url("/img/a.png", "posts", "p1"), "/img/a.png");
}

#[test]
fn normalize_rewrites_relative_paths() {
    assert_eq!(
        normalize_image_url("./cover.png", "posts", "hello-world"),
        "content/posts/hello-world/cover.png"
    );
    assert_eq!(
        normalize_image_url("cover.png", "projects", "demo"),
        "content/projects/demo/cover.png"
    );
}

#[test]
fn normalize_is_not_idempotent_on_relative_paths() {
    let once = normalize_image_url("./cover.png", "posts", "x");
    let twice = normalize_image_url(&once, "posts", "x");
    assert_eq!(twice, "content/posts/x/content/posts/x/cover.png");
    assert_ne!(once, twice);
}

#[test]
fn read_time_of_empty_body() {
    assert_eq!(get_read_time(""), "1 min read");
}

#[test]
fn read_time_rounds_up_over_200_words() {
    let exactly_200 = "word ".repeat(200);
    assert_eq!(get_read_time(&exactly_200), "1 min read");
    let two_hundred_one = "word ".repeat(201);
    assert_eq!(get_read_time(&two_hundred_one), "2 min read");
}

#[test]
fn read_time_counts_whitespace_delimited_words() {
    assert_eq!(get_read_time("a\tb\nc   d"), "1 min read");
    let many = "w ".repeat(401);
    assert_eq!(get_read_time(&many), "3 min read");
}

#[test]
fn parse_wrong_field_shape_is_schema_error() {
    let doc = "---\ntitle: T\ndate: D\nauthor: A\ndescription: X\nimage_url: i\ntags: plain\n---\nB";
    assert_eq!(
        parse_frontmatter(doc),
        Err(ParseError::SchemaValidationError("tags".to_string()))
    );
}

#[test]
fn parse_unreadable_block_is_schema_error() {
    let doc = "---\njust some words with no colon\n---\nB";
    assert_eq!(
        parse_frontmatter(doc),
        Err(ParseError::SchemaValidationError("frontmatter".to_string()))
    );
}
