use content_index::blog::{
    build_post_index, derive_categories, encode_post_index, get_all_categories, get_all_posts,
    get_post_by_id, parse_markdown, parse_post_index, parse_post_meta, posts_from_artifact,
    sort_by_date_desc, IndexError, PostMeta,
};
use content_index::markdown::markdown_to_html;

fn doc(title: &str, date: &str, tags: &str) -> String {
    let mut s = String::new();
    s.push_str("---\ntitle: ");
    s.push_str(title);
    s.push_str("\ndate: ");
    s.push_str(date);
    s.push_str("\nauthor: Me\ndescription: D\nimage_url: ./cover.png\ntags: ");
    s.push_str(tags);
    s.push_str("\n---\nSome body");
    s
}

fn meta(id: &str, title: &str, date: &str, tags: Vec<&str>) -> PostMeta {
    PostMeta {
        id: id.to_string(),
        title: title.to_string(),
        date: date.to_string(),
        author: "Me".to_string(),
        description: "D".to_string(),
        image_url: format!("content/posts/{}/cover.png", id),
        tags: tags.into_iter().map(|t| t.to_string()).collect(),
    }
}

#[test]
fn entry_gets_id_and_normalized_image() {
    let m = parse_post_meta(&doc("A", "2024-01-01", "[x]"), "my-post").unwrap();
    assert_eq!(m.id, "my-post");
    assert_eq!(m.image_url, "content/posts/my-post/cover.png");
}

#[test]
fn parse_markdown_keeps_raw_image_and_sets_id() {
    let p = parse_markdown(&doc("A", "2024-01-01", "[x]"), "my-post".to_string()).unwrap();
    assert_eq!(p.meta.id, "my-post");
    assert_eq!(p.meta.image_url, "./cover.png");
    assert_eq!(p.content, "Some body");
    assert_eq!(p.get_read_time(), "1 min read");
}

#[test]
fn index_sorts_by_date_descending() {
    let docs = vec![
        ("jan".to_string(), doc("January", "2024-01-01", "[a]")),
        ("dec".to_string(), doc("December", "2024-12-31", "[b]")),
    ];
    let posts = get_all_posts(&docs);
    assert_eq!(posts.len(), 2);
    assert_eq!(posts[0].id, "dec");
    assert_eq!(posts[1].id, "jan");
}

#[test]
fn index_keeps_insertion_order_for_equal_dates() {
    let docs = vec![
        ("first".to_string(), doc("F", "2024-05-05", "[]")),
        ("newer".to_string(), doc("N", "2024-06-06", "[]")),
        ("second".to_string(), doc("S", "2024-05-05", "[]")),
        ("third".to_string(), doc("T", "2024-05-05", "[]")),
    ];
    let posts = get_all_posts(&docs);
    let ids: Vec<&str> = posts.iter().map(|p| p.id.as_str()).collect();
    assert_eq!(ids, vec!["newer", "first", "second", "third"]);
}

#[test]
fn index_skips_malformed_entries() {
    let docs = vec![
        ("good".to_string(), doc("G", "2024-01-01", "[a]")),
        ("bad".to_string(), "---\ntitle: no closing delimiter".to_string()),
        ("also-good".to_string(), doc("H", "2024-02-02", "[b]")),
    ];
    let posts = get_all_posts(&docs);
    let ids: Vec<&str> = posts.iter().map(|p| p.id.as_str()).collect();
    assert_eq!(ids, vec!["also-good", "good"]);
}

#[test]
fn build_index_rejects_duplicate_ids() {
    let docs = vec![
        ("a".to_string(), doc("A", "2024-01-01", "[]")),
        ("b".to_string(), doc("B", "2024-01-02", "[]")),
        ("a".to_string(), doc("C", "2024-01-03", "[]")),
    ];
    assert_eq!(
        build_post_index(&docs),
        Err(IndexError::DuplicateId("a".to_string()))
    );
}

#[test]
fn build_index_accepts_distinct_ids() {
    let docs = vec![
        ("a".to_string(), doc("A", "2024-01-01", "[]")),
        ("b".to_string(), doc("B", "2024-01-02", "[]")),
    ];
    let posts = build_post_index(&docs).unwrap();
    assert_eq!(posts.len(), 2);
    assert_eq!(posts[0].id, "b");
}

#[test]
fn lookup_by_id() {
    let docs = vec![
        ("one".to_string(), doc("One", "2024-01-01", "[a]")),
        ("two".to_string(), doc("Two", "2024-01-02", "[b]")),
    ];
    let post = get_post_by_id(&docs, "two").unwrap();
    assert_eq!(post.meta.title, "Two");
    assert_eq!(post.content, "Some body");
    assert!(get_post_by_id(&docs, "three").is_none());
}

#[test]
fn lookup_of_malformed_document_is_none() {
    let docs = vec![("bad".to_string(), "no frontmatter here".to_string())];
    assert!(get_post_by_id(&docs, "bad").is_none());
}

#[test]
fn categories_are_sorted_and_unique() {
    let posts = vec![
        meta("p1", "A", "2024-01-01", vec!["web", "rust"]),
        meta("p2", "B", "2024-01-02", vec!["rust", "ai"]),
        meta("p3", "C", "2024-01-03", vec!["web"]),
    ];
    let cats = derive_categories(&posts);
    assert_eq!(
        cats,
        vec!["ai".to_string(), "rust".to_string(), "web".to_string()]
    );
}

#[test]
fn categories_from_documents() {
    let docs = vec![
        ("x".to_string(), doc("X", "2024-01-01", "[zeta, alpha]")),
        ("y".to_string(), doc("Y", "2024-01-02", "[alpha]")),
    ];
    let cats = get_all_categories(&docs);
    assert_eq!(cats, vec!["alpha".to_string(), "zeta".to_string()]);
}

#[test]
fn artifact_round_trip_preserves_index() {
    let posts = vec![
        meta("p1", "He said \"hi\"\nand \\left", "2024-03-01", vec!["a", "b"]),
        meta("p2", "Tabs\tand more", "2024-02-01", vec![]),
    ];
    let text = encode_post_index(&posts);
    let back = parse_post_index(&text).unwrap();
    assert_eq!(back, posts);
}

#[test]
fn artifact_parsing_tolerates_whitespace_and_field_order() {
    let text = "  [ { \"title\" : \"T\", \"id\" : \"p\", \"date\" : \"2024-01-01\",\n \"author\" : \"A\", \"description\" : \"D\", \"image_url\" : \"i\", \"tags\" : [ \"x\" , \"y\" ] } ]  ";
    let posts = parse_post_index(text).unwrap();
    assert_eq!(posts.len(), 1);
    assert_eq!(posts[0].id, "p");
    assert_eq!(posts[0].title, "T");
    assert_eq!(posts[0].tags, vec!["x".to_string(), "y".to_string()]);
}

#[test]
fn posts_from_artifact_sorts_and_tolerates_garbage() {
    let posts = vec![
        meta("old", "O", "2023-01-01", vec![]),
        meta("new", "N", "2024-01-01", vec![]),
    ];
    let text = encode_post_index(&posts);
    let sorted = posts_from_artifact(&text);
    assert_eq!(sorted[0].id, "new");
    assert_eq!(sorted[1].id, "old");
    assert!(posts_from_artifact("not json at all").is_empty());
    assert!(posts_from_artifact("").is_empty());
}

#[test]
fn sort_is_reusable_on_plain_vectors() {
    let posts = vec![
        meta("a", "A", "2024-01-01", vec![]),
        meta("c", "C", "2024-03-01", vec![]),
        meta("b", "B", "2024-02-01", vec![]),
    ];
    let sorted = sort_by_date_desc(posts);
    let ids: Vec<&str> = sorted.iter().map(|p| p.id.as_str()).collect();
    assert_eq!(ids, vec!["c", "b", "a"]);
}

#[test]
fn markdown_renders_headings() {
    assert_eq!(markdown_to_html("# Hi"), "<h1>Hi</h1>\n");
    assert_eq!(markdown_to_html(""), "");
}

#[test]
fn categories_of_empty_index() {
    let posts: Vec<PostMeta> = Vec::new();
    assert!(derive_categories(&posts).is_empty());
}

#[test]
fn sort_compares_dates_as_plain_strings() {
    let posts = vec![
        meta("short", "S", "2024-2", vec![]),
        meta("long", "L", "2024-12", vec![]),
    ];
    let sorted = sort_by_date_desc(posts);
    assert_eq!(sorted[0].id, "short");
    assert_eq!(sorted[1].id, "long");
}
