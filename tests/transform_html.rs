use wordpress_to_zola::normalize::transform_html;

fn normalized(content: &str) -> String {
    transform_html(content).unwrap()
}

#[test]
fn no_newlines_means_no_change() {
    assert_eq!(normalized("ab"), "ab");
    assert_eq!(normalized("<b>A</b>B<b>C</b>"), "<b>A</b>B<b>C</b>");
}

#[test]
fn one_new_line_is_preserved() {
    assert_eq!(normalized("a\nb"), "a\nb");
    assert_eq!(normalized("a\n\nb\nc"), "a<p></p>b\nc");
}

#[test]
fn gaps_yield_separate_paragraphs() {
    assert_eq!(normalized("a\n\nb"), "a<p></p>b");
}

#[test]
fn long_gaps_are_the_same_as_short_ones() {
    assert_eq!(normalized("a\n\n\n\n\n\nb"), "a<p></p>b");
}

#[test]
fn leading_and_trailing_newlines_are_ignored() {
    assert_eq!(normalized("a\n\n"), "a<p></p>");
    assert_eq!(normalized("\n\na"), "\n\na");
    assert_eq!(normalized("a\n\nb\n\n"), "a<p></p>b<p></p>");
    assert_eq!(normalized("\n\na\n\nb\n\n"), "a<p></p>b<p></p>");
}

#[test]
fn multiple_gaps_become_paras() {
    assert_eq!(normalized("a\n\nb\n\nc"), "a<p></p>b<p></p>c");
}

#[test]
fn tags_containing_gaps_are_preserved_as_is() {
    assert_eq!(normalized("<b>a\n\nb\n\nc</b>"), "<b>a\n\nb\n\nc</b>");
    assert_eq!(
        normalized("<b>a\n\nb\n\nc</b>\n\nd"),
        "<b>a\n\nb\n\nc</b><p></p>d"
    );
    assert_eq!(
        normalized("a<b>b\n\nb\n\nb</b>\n\nc"),
        "a<b>b\n\nb\n\nb</b><p></p>c"
    );
}

#[test]
fn text_followed_by_tag_is_untouched() {
    assert_eq!(normalized("a\n\nb<tt>c</tt>"), "a<p></p>b<tt>c</tt>");
}

#[test]
fn trailing_newline_after_tags_is_preserved() {
    assert_eq!(
        normalized("<tt>a</tt>\n\n<tt>b</tt>\n"),
        "<tt>a</tt><p></p><tt>b</tt>\n"
    );
}

#[test]
fn comments_are_ok() {
    assert_eq!(normalized("a<!--  -->"), "a<!--  -->");
    assert_eq!(normalized("a\n\nb<!--  -->"), "a<p></p>b<!--  -->");
    assert_eq!(normalized("<!--  -->"), "<!--  -->");
    assert_eq!(normalized("<!-- a -->"), "<!-- a -->");
    assert_eq!(normalized("<p>a</p><!--  -->"), "<p>a</p><!--  -->");
    assert_eq!(normalized("<p>a<!--  -->b</p>"), "<p>a<!--  -->b</p>");
    assert_eq!(normalized("<p>a<!-- b -->c</p>"), "<p>a<!-- b -->c</p>");
}

#[test]
fn leading_comments_are_skipped() {
    // html5ever moves leading comments out to the document level, so they
    // are gone once the body is serialized anew.
    assert_eq!(normalized("<!--  -->b\n\nc"), "b<p></p>c");

    // Without a bare text to change the markup stays as it was.
    assert_eq!(normalized("<!--  -->b"), "<!--  -->b");
    assert_eq!(normalized("<!--  --><p>b</p>"), "<!--  --><p>b</p>");
}
