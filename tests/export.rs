use wordpress_to_zola::export::{
    escape_title, generate_path, page_file, page_for, page_markdown, section_index_file, strip_empty_links,
    Item, PostType, SectionTracker, Status,
};

fn item(status: Status, post_type: PostType) -> Item {
    Item {
        title: "Post 1".to_string(),
        link: "http://example.com/post1".to_string(),
        pub_date: "Mon, 01 Sep 2008 21:02:27 +0000".to_string(),
        post_type,
        encoded: vec!["<p>body</p>".to_string(), "excerpt".to_string()],
        status,
    }
}

#[test]
fn content_is_the_first_encoded_field() {
    assert_eq!(item(Status::Publish, PostType::Post).content(), "<p>body</p>");
}

#[test]
fn only_published_posts_become_pages() {
    assert!(item(Status::Publish, PostType::Post).is_published_post());
    assert!(!item(Status::Draft, PostType::Post).is_published_post());
    assert!(!item(Status::Private, PostType::Post).is_published_post());
    assert!(!item(Status::Inherit, PostType::Post).is_published_post());
    assert!(!item(Status::Publish, PostType::Attachment).is_published_post());
    assert!(!item(Status::Publish, PostType::Other).is_published_post());
}

#[test]
fn path_of_a_link_outside_the_base_keeps_the_link() {
    assert_eq!(
        generate_path("https://example.com", "http://example.com/post1"),
        "http://example.com/post1.md"
    );
}

#[test]
fn path_drops_the_base_and_the_slashes() {
    assert_eq!(
        generate_path("https://example.com", "https://example.com/2020/01/post/"),
        "2020/01/post.md"
    );
    assert_eq!(generate_path("ab", "ababab/x"), "x.md");
    assert_eq!(generate_path("", "/x/"), "x.md");
    assert_eq!(generate_path("https://example.com", "https://example.com/"), ".md");
}

#[test]
fn quotes_in_titles_are_escaped_for_front_matter() {
    assert_eq!(escape_title("Post \"1\""), "Post \\\"1\\\"");
    assert_eq!(escape_title("plain"), "plain");
    assert_eq!(escape_title(""), "");
}

#[test]
fn empty_links_are_taken_out() {
    assert_eq!(strip_empty_links("Foo []() Bar"), "Foo  Bar");
    assert_eq!(strip_empty_links("[][]()()"), "[]()");
    assert_eq!(strip_empty_links("[]()[]()"), "");
    assert_eq!(strip_empty_links("[] ()"), "[] ()");
}

#[test]
fn page_markdown_converts_and_drops_empty_links() {
    assert_eq!(page_markdown("Foo []() Bar"), "Foo  Bar");
    assert_eq!(page_markdown(""), "");
    assert_eq!(page_markdown("<b>x</b>"), "**x**");
}

#[test]
fn page_file_has_front_matter() {
    assert_eq!(
        page_file("Post \\\"1\\\"", "2008-09-01T21:02:27+00:00", "Foo  Bar"),
        "+++\ntitle = \"Post \\\"1\\\"\"\ndate = 2008-09-01T21:02:27+00:00\n+++\nFoo  Bar\n"
    );
}

#[test]
fn section_index_file_is_fixed() {
    assert_eq!(
        section_index_file(),
        "+++\ntransparent = true\nsort_by = \"date\"\npaginate_by = 5\n+++\n"
    );
}

#[test]
fn each_section_is_visited_first_once() {
    let mut sections = SectionTracker::new();
    assert!(sections.first_visit("output/a"));
    assert!(sections.first_visit("output/b"));
    assert!(!sections.first_visit("output/a"));
    assert!(!sections.first_visit("output/b"));
    assert!(sections.first_visit(""));
}

#[test]
fn page_dates_are_written_in_rfc3339() {
    assert_eq!(
        page_for("Post \"1\"", "Mon, 01 Sep 2008 21:02:27 +0000", "Foo  Bar"),
        Some("+++\ntitle = \"Post \\\"1\\\"\"\ndate = 2008-09-01T21:02:27+00:00\n+++\nFoo  Bar\n".to_string())
    );
    assert_eq!(page_for("t", "not a date", "m"), None);
}
