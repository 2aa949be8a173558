use content_index::projects::{
    build_project_index, derive_categories, encode_project_index, get_all_projects,
    get_project_by_id, parse_project_full, parse_project_index, projects_from_artifact,
    ProjectMeta,
};

fn project_doc(title: &str, date: &str, extra: &str) -> String {
    let mut s = String::new();
    s.push_str("---\ntitle: ");
    s.push_str(title);
    s.push_str("\ndate: ");
    s.push_str(date);
    s.push_str("\nauthor: Me\ndescription: D\nimage_url: shot.png\ntags: [demo]\n");
    s.push_str(extra);
    s.push_str("---\nProject body");
    s
}

fn project_meta(id: &str, date: &str, link: Option<&str>) -> ProjectMeta {
    ProjectMeta {
        id: id.to_string(),
        title: "T".to_string(),
        date: date.to_string(),
        author: "Me".to_string(),
        description: "D".to_string(),
        image_url: format!("content/projects/{}/shot.png", id),
        tags: vec!["demo".to_string()],
        link: link.map(|l| l.to_string()),
        link_text: None,
        route: Some("detail".to_string()),
    }
}

#[test]
fn project_optional_fields_present() {
    let doc = project_doc(
        "P",
        "2024-04-01",
        "link: https://example.com\nlink_text: Visit\nroute: demo\n",
    );
    let p = parse_project_full(&doc, "proj".to_string()).unwrap();
    assert_eq!(p.meta.id, "proj");
    assert_eq!(p.meta.link, Some("https://example.com".to_string()));
    assert_eq!(p.meta.link_text, Some("Visit".to_string()));
    assert_eq!(p.meta.route, Some("demo".to_string()));
    assert_eq!(p.content, "Project body");
    assert_eq!(p.get_read_time(), "1 min read");
}

#[test]
fn project_optional_fields_absent() {
    let doc = project_doc("P", "2024-04-01", "");
    let p = parse_project_full(&doc, "proj".to_string()).unwrap();
    assert_eq!(p.meta.link, None);
    assert_eq!(p.meta.link_text, None);
    assert_eq!(p.meta.route, None);
}

#[test]
fn project_index_sorted_and_normalized() {
    let docs = vec![
        ("early".to_string(), project_doc("E", "2023-01-01", "")),
        ("late".to_string(), project_doc("L", "2024-01-01", "")),
    ];
    let index = get_all_projects(&docs);
    assert_eq!(index[0].id, "late");
    assert_eq!(index[1].image_url, "content/projects/early/shot.png");
    let built = build_project_index(&docs).unwrap();
    assert_eq!(built, index);
}

#[test]
fn project_lookup_by_id() {
    let docs = vec![("p".to_string(), project_doc("P", "2024-01-01", "route: r\n"))];
    let p = get_project_by_id(&docs, "p").unwrap();
    assert_eq!(p.meta.route, Some("r".to_string()));
    assert!(get_project_by_id(&docs, "q").is_none());
}

#[test]
fn project_categories() {
    let projects = vec![
        project_meta("a", "2024-01-01", None),
        project_meta("b", "2024-01-02", Some("https://x")),
    ];
    assert_eq!(derive_categories(&projects), vec!["demo".to_string()]);
}

#[test]
fn project_artifact_round_trip() {
    let projects = vec![
        project_meta("a", "2024-01-02", Some("https://example.com")),
        project_meta("b", "2024-01-01", None),
    ];
    let text = encode_project_index(&projects);
    let back = parse_project_index(&text).unwrap();
    assert_eq!(back, projects);
    let sorted = projects_from_artifact(&text);
    assert_eq!(sorted, projects);
}

#[test]
fn project_artifact_null_link_reads_back_absent() {
    let text = "[{\"id\":\"x\",\"title\":\"T\",\"date\":\"2024-01-01\",\"author\":\"A\",\"description\":\"D\",\"image_url\":\"i\",\"tags\":[],\"link\":null,\"link_text\":null,\"route\":null}]";
    let projects = parse_project_index(text).unwrap();
    assert_eq!(projects.len(), 1);
    assert_eq!(projects[0].link, None);
    assert_eq!(projects[0].route, None);
}
