use regex::Regex;
use wordpress_to_zola::blank_lines::{contains_blank_run, split_blank_runs};
use wordpress_to_zola::children::{children_of, scan_blank_texts, splice_blank_texts, Child};
use wordpress_to_zola::normalize::{
    equal_ignoring_ascii_case, find_child_element, normalize_children, transform_html,
};

fn describe(children: &[Child]) -> Vec<String> {
    children
        .iter()
        .map(|c| match c {
            Child::Text(t) => format!("text {:?}", t),
            Child::Paragraph => "p".to_string(),
            Child::Kept(_) => "kept".to_string(),
        })
        .collect()
}

#[test]
fn split_agrees_with_the_blank_line_pattern() {
    let pattern = Regex::new(r"\n\n+").unwrap();
    let samples = [
        "",
        "a",
        "a\nb",
        "a\n\nb",
        "a\n\n\n\n\n\nb",
        "\n\na",
        "a\n\n",
        "\n",
        "\n\n",
        "\n\n\n",
        "a\n\nb\n\nc",
        "a\nb\n\nc\nd",
        "é\n\n\nü\n",
    ];
    for s in samples {
        let expected: Vec<String> = pattern.split(s).map(String::from).collect();
        assert_eq!(split_blank_runs(s), expected, "splitting {:?}", s);
        assert_eq!(contains_blank_run(s), pattern.is_match(s), "matching {:?}", s);
    }
}

#[test]
fn single_newline_is_no_run() {
    assert!(!contains_blank_run("a\nb\nc"));
    assert_eq!(split_blank_runs("a\nb"), vec!["a\nb".to_string()]);
}

#[test]
fn run_length_gives_one_split() {
    assert_eq!(split_blank_runs("a\n\n\n\n\n\nb"), split_blank_runs("a\n\nb"));
}

#[test]
fn element_names_match_without_case() {
    assert!(equal_ignoring_ascii_case("BODY", "body"));
    assert!(equal_ignoring_ascii_case("Html", "hTML"));
    assert!(!equal_ignoring_ascii_case("body", "bod"));
    assert!(!equal_ignoring_ascii_case("head", "body"));
}

#[test]
fn find_child_element_picks_the_first_match() {
    let names = vec![None, Some("head".to_string()), Some("BODY".to_string()), Some("body".to_string())];
    assert_eq!(find_child_element(&names, "body"), Some(2));
    assert_eq!(find_child_element(&names, "head"), Some(1));
}

#[test]
fn missing_element_is_reported() {
    let names = vec![None, Some("head".to_string())];
    assert_eq!(find_child_element(&names, "body"), None);
    assert_eq!(find_child_element(&Vec::new(), "html"), None);
}

#[test]
fn plain_children_are_left_alone() {
    let children = vec![Child::Text("a\nb".to_string()), Child::Paragraph];
    assert!(normalize_children(children).is_none());
    assert!(normalize_children(Vec::new()).is_none());
}

#[test]
fn splitting_children_are_spliced_in_order() {
    let children = vec![
        Child::Text("a\n\nb".to_string()),
        Child::Paragraph,
        Child::Text("c".to_string()),
        Child::Text("d\n\n\ne\n\n".to_string()),
    ];
    let out = normalize_children(children).unwrap();
    assert_eq!(
        describe(&out),
        vec![
            "text \"a\"", "p", "text \"b\"", "p", "text \"c\"", "text \"d\"", "p", "text \"e\"", "p",
            "text \"\"",
        ]
    );
}

#[test]
fn scan_lists_positions_and_texts() {
    let children = vec![
        Child::Text("x".to_string()),
        Child::Text("a\n\nb".to_string()),
        Child::Paragraph,
        Child::Text("c\n\n".to_string()),
    ];
    let matches = scan_blank_texts(&children);
    assert_eq!(matches, vec![(1, "a\n\nb".to_string()), (3, "c\n\n".to_string())]);
    let mut spliced = children;
    splice_blank_texts(&mut spliced, &matches);
    assert_eq!(
        describe(&spliced),
        vec!["text \"x\"", "text \"a\"", "p", "text \"b\"", "p", "text \"c\"", "p", "text \"\""]
    );
}

#[test]
fn content_without_runs_is_returned_as_is() {
    let content = "<i>x</i> y\nz <!-- c -->";
    assert_eq!(transform_html(content).unwrap(), content);
    assert_eq!(transform_html("").unwrap(), "");
}

#[test]
fn single_newline_boundary() {
    assert_eq!(transform_html("a\nb").unwrap(), "a\nb");
}

#[test]
fn nested_gap_stays_and_sibling_gap_splits() {
    assert_eq!(transform_html("<b>a\n\nb\n\nc</b>").unwrap(), "<b>a\n\nb\n\nc</b>");
    assert_eq!(
        transform_html("<b>a\n\nb\n\nc</b>\n\nd").unwrap(),
        "<b>a\n\nb\n\nc</b><p></p>d"
    );
}

#[test]
fn untouched_elements_keep_their_markup() {
    assert_eq!(
        transform_html("<a href=\"x\" title=\"t\">l</a>\n\n<img src=\"i.png\">").unwrap(),
        "<a href=\"x\" title=\"t\">l</a><p></p><img src=\"i.png\">"
    );
}

#[test]
fn text_is_escaped_when_serialized_anew() {
    assert_eq!(transform_html("a &amp; b\n\nc").unwrap(), "a &amp; b<p></p>c");
}

#[test]
fn children_come_from_texts_and_positions() {
    let texts = vec![Some("a\n\nb".to_string()), None, Some("c".to_string())];
    let children = children_of(&texts);
    assert_eq!(describe(&children), vec!["text \"a\\n\\nb\"", "kept", "text \"c\""]);
    assert!(matches!(children[1], Child::Kept(1)));
}

#[test]
fn frameset_document_has_no_body() {
    assert_eq!(
        transform_html("<frameset></frameset>"),
        Err(wordpress_to_zola::normalize::NormalizeError::StructureMissing)
    );
}
