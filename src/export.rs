//! The pieces of the blog export converter that decide what is written where:
//! which posts become pages, their paths, titles, markdown and front matter,
//! and which sections get an index file.
use vstd::prelude::*;
use vstd::string::{StrSliceExecFns, StringExecFns};

use crate::blank_lines::chars_of;

verus! {

broadcast use vstd::string::group_string_axioms;

/// What an exported item is.
#[derive(Debug, PartialEq, Eq, Structural, Clone, Copy)]
pub enum PostType {
    Attachment,
    Post,
    /// Any other kind of item.
    Other,
}

/// The publication status of an exported item.
#[derive(Debug, PartialEq, Eq, Structural, Clone, Copy)]
pub enum Status {
    Publish,
    Draft,
    Inherit,
    Private,
}

/// One item of the export: a post, an attachment or something else.
pub struct Item {
    pub title: String,
    pub link: String,
    /// The publication date, as RFC 2822 text.
    pub pub_date: String,
    pub post_type: PostType,
    /// The encoded fields of the item; the first one is the HTML body.
    pub encoded: Vec<String>,
    pub status: Status,
}

impl Item {
    /// The HTML body of the item: its first encoded field.
    pub fn content(&self) -> (r: &str)
        requires
            self.encoded.len() > 0,
        ensures
            r@ == self.encoded@[0]@,
    {
        self.encoded[0].as_str()
    }

    /// Whether the item becomes a page: a published post.
    pub fn is_published_post(&self) -> (r: bool)
        ensures
            r == (self.status == Status::Publish && self.post_type == PostType::Post),
    {
        match (self.status, self.post_type) {
            (Status::Publish, PostType::Post) => true,
            _ => false,
        }
    }
}

/// `s` with every leading copy of a non-empty `p` taken off.
pub open spec fn strip_prefixes(s: Seq<char>, p: Seq<char>) -> Seq<char>
    decreases s.len(),
{
    if p.len() > 0 && p.len() <= s.len() && s.take(p.len() as int) == p {
        strip_prefixes(s.skip(p.len() as int), p)
    } else {
        s
    }
}

/// `s` without the slashes at its start.
pub open spec fn trim_leading_slashes(s: Seq<char>) -> Seq<char>
    decreases s.len(),
{
    if s.len() > 0 && s[0] == '/' {
        trim_leading_slashes(s.drop_first())
    } else {
        s
    }
}

/// `s` without the slashes at its end.
pub open spec fn trim_trailing_slashes(s: Seq<char>) -> Seq<char>
    decreases s.len(),
{
    if s.len() > 0 && s.last() == '/' {
        trim_trailing_slashes(s.drop_last())
    } else {
        s
    }
}

/// The path of the page for `link`, relative to the output directory.
pub open spec fn page_path(base_url: Seq<char>, link: Seq<char>) -> Seq<char> {
    trim_trailing_slashes(trim_leading_slashes(strip_prefixes(link, base_url))) + ".md"@
}

/// Whether `p` stands in `s` at `pos`.
fn occurs_at(s: &Vec<char>, p: &Vec<char>, pos: usize) -> (r: bool)
    requires
        pos <= s.len(),
    ensures
        r == (pos + p.len() <= s.len() && s@.subrange(pos as int, pos + p.len()) == p@),
{
    if p.len() > s.len() - pos {
        return false;
    }
    let mut j: usize = 0;
    while j < p.len()
        invariant
            pos + p.len() <= s.len(),
            j <= p.len(),
            forall|k: int| 0 <= k < j ==> s@[pos + k] == p@[k],
        decreases p.len() - j,
    {
        if s[pos + j] != p[j] {
            assert(s@.subrange(pos as int, pos + p.len())[j as int] != p@[j as int]);
            return false;
        }
        j = j + 1;
    }
    assert(s@.subrange(pos as int, pos + p.len()) =~= p@);
    true
}

/// The path of the page for `link`: the link with every leading copy of
/// `base_url` and the slashes at both ends taken off, and `.md` added.
pub fn generate_path(base_url: &str, link: &str) -> (r: String)
    ensures
        r@ == page_path(base_url@, link@),
{
    let s = chars_of(link);
    let p = chars_of(base_url);
    let mut start: usize = 0;
    assert(s@.skip(0) =~= s@);
    if p.len() > 0 {
        while occurs_at(&s, &p, start)
            invariant
                s@ == link@,
                p@ == base_url@,
                p.len() > 0,
                start <= s.len(),
                strip_prefixes(link@, base_url@) == strip_prefixes(s@.skip(start as int), p@),
            decreases s.len() - start,
        {
            proof {
                assert(s@.skip(start as int).take(p.len() as int) =~= s@.subrange(
                    start as int,
                    start + p.len(),
                ));
                assert(s@.skip(start as int).skip(p.len() as int) =~= s@.skip(start + p.len()));
            }
            start = start + p.len();
        }
        proof {
            if start + p.len() <= s.len() {
                assert(s@.skip(start as int).take(p.len() as int) =~= s@.subrange(
                    start as int,
                    start + p.len(),
                ));
            }
        }
    }
    let ghost stripped = s@.skip(start as int);
    let mut end: usize = s.len();
    while start < end && s[start] == '/'
        invariant
            s@ == link@,
            start <= end == s.len(),
            trim_leading_slashes(stripped) == trim_leading_slashes(s@.skip(start as int)),
        decreases end - start,
    {
        assert(s@.skip(start as int).drop_first() =~= s@.skip(start + 1));
        start = start + 1;
    }
    assert(trim_leading_slashes(s@.skip(start as int)) == s@.skip(start as int)) by {
        assert(s@.skip(start as int).len() == 0 || s@.skip(start as int)[0] != '/');
    }
    assert(s@.subrange(start as int, end as int) =~= s@.skip(start as int));
    while start < end && s[end - 1] == '/'
        invariant
            s@ == link@,
            start <= end <= s.len(),
            trim_trailing_slashes(trim_leading_slashes(stripped)) == trim_trailing_slashes(
                s@.subrange(start as int, end as int),
            ),
        decreases end - start,
    {
        assert(s@.subrange(start as int, end as int).drop_last() =~= s@.subrange(
            start as int,
            end - 1,
        ));
        end = end - 1;
    }
    assert(trim_trailing_slashes(s@.subrange(start as int, end as int)) == s@.subrange(
        start as int,
        end as int,
    ));
    let mut out = link.substring_char(start, end).to_owned();
    out.append(".md");
    out
}

/// `s` with each double quote written as a backslash and a double quote.
pub open spec fn escape_quotes(s: Seq<char>) -> Seq<char>
    decreases s.len(),
{
    if s.len() == 0 {
        s
    } else if s.last() == '"' {
        escape_quotes(s.drop_last()) + "\\\""@
    } else {
        escape_quotes(s.drop_last()) + seq![s.last()]
    }
}

/// `s` with every occurrence of a non-empty `p` taken out, scanning from the
/// left.
pub open spec fn remove_all(s: Seq<char>, p: Seq<char>) -> Seq<char>
    decreases s.len(),
{
    if s.len() == 0 {
        s
    } else if p.len() > 0 && p.len() <= s.len() && s.take(p.len() as int) == p {
        remove_all(s.skip(p.len() as int), p)
    } else {
        seq![s[0]] + remove_all(s.drop_first(), p)
    }
}

/// Markdown without the empty links `[]()` that the converter leaves behind.
pub open spec fn without_empty_links(s: Seq<char>) -> Seq<char> {
    remove_all(s, "[]()"@)
}

/// The markdown that html2md makes of `html`.
pub uninterp spec fn markdown_of(html: Seq<char>) -> Seq<char>;

/// The page file: front matter with the title and date, then the markdown.
pub open spec fn page_text(title: Seq<char>, date: Seq<char>, markdown: Seq<char>) -> Seq<char> {
    "+++\ntitle = \""@ + title + "\"\ndate = "@ + date + "\n+++\n"@ + markdown + "\n"@
}

/// The index file of a section: its pages shown in the parent, by date, five
/// to a page.
pub open spec fn section_index_text() -> Seq<char> {
    "+++\ntransparent = true\nsort_by = \"date\"\npaginate_by = 5\n+++\n"@
}

/// The title with each double quote escaped for the front matter.
pub fn escape_title(title: &str) -> (r: String)
    ensures
        r@ == escape_quotes(title@),
{
    let s = chars_of(title);
    let mut out = String::new();
    let mut start: usize = 0;
    let mut i: usize = 0;
    assert(s@.take(0) =~= seq![]);
    while i < s.len()
        invariant
            s@ == title@,
            start <= i <= s.len(),
            escape_quotes(s@.take(i as int)) == out@ + s@.subrange(start as int, i as int),
        decreases s.len() - i,
    {
        assert(s@.take(i + 1).drop_last() =~= s@.take(i as int));
        if s[i] == '"' {
            let piece = title.substring_char(start, i);
            out.append(piece);
            out.append("\\\"");
            i = i + 1;
            start = i;
            assert(s@.subrange(start as int, i as int) =~= seq![]);
            assert(escape_quotes(s@.take(i as int)) =~= out@ + s@.subrange(start as int, i as int));
        } else {
            assert(s@.subrange(start as int, i + 1) =~= s@.subrange(start as int, i as int).push(s@[i as int]));
            i = i + 1;
        }
    }
    let piece = title.substring_char(start, i);
    out.append(piece);
    assert(s@.take(i as int) =~= s@);
    out
}

/// `markdown` without the empty links `[]()`.
pub fn strip_empty_links(markdown: &str) -> (r: String)
    ensures
        r@ == without_empty_links(markdown@),
{
    let s = chars_of(markdown);
    let p = chars_of("[]()");
    let mut out = String::new();
    let mut start: usize = 0;
    let mut i: usize = 0;
    proof {
        reveal_strlit("[]()");
        assert(s@.skip(0) =~= s@);
    }
    while i < s.len()
        invariant
            s@ == markdown@,
            p@ == "[]()"@,
            p.len() == 4,
            start <= i <= s.len(),
            out@ + s@.subrange(start as int, i as int) + remove_all(s@.skip(i as int), p@)
                == without_empty_links(markdown@),
        decreases s.len() - i,
    {
        let ghost rest = s@.skip(i as int);
        if occurs_at(&s, &p, i) {
            proof {
                assert(rest.take(4) =~= s@.subrange(i as int, i + 4));
                assert(rest.skip(4) =~= s@.skip(i + 4));
            }
            let piece = markdown.substring_char(start, i);
            out.append(piece);
            i = i + 4;
            start = i;
            assert(s@.subrange(start as int, i as int) =~= seq![]);
        } else {
            proof {
                if i + 4 <= s.len() {
                    assert(rest.take(4) =~= s@.subrange(i as int, i + 4));
                }
                assert(rest.drop_first() =~= s@.skip(i + 1));
                assert(s@.subrange(start as int, i + 1) =~= s@.subrange(start as int, i as int) + seq![s@[i as int]]);
            }
            i = i + 1;
        }
    }
    let piece = markdown.substring_char(start, i);
    out.append(piece);
    assert(s@.skip(i as int) =~= seq![]);
    out
}

/// Relies on html2md::parse_html: the markdown for `html`, which depends on the
/// text alone.
#[verifier::external_body]
fn html_to_markdown(html: &str) -> (r: String)
    ensures
        r@ == markdown_of(html@),
{
    html2md::parse_html(html)
}

/// The markdown of a page body: what html2md makes of it, without empty links.
pub fn page_markdown(html: &str) -> (r: String)
    ensures
        r@ == without_empty_links(markdown_of(html@)),
{
    let markdown = html_to_markdown(html);
    strip_empty_links(markdown.as_str())
}

/// The page file for a post.
pub fn page_file(title: &str, date: &str, markdown: &str) -> (r: String)
    ensures
        r@ == page_text(title@, date@, markdown@),
{
    let mut out = String::new();
    out.append("+++\ntitle = \"");
    out.append(title);
    out.append("\"\ndate = ");
    out.append(date);
    out.append("\n+++\n");
    out.append(markdown);
    out.append("\n");
    out
}

/// The index file of a section.
pub fn section_index_file() -> (r: String)
    ensures
        r@ == section_index_text(),
{
    let mut out = String::new();
    out.append("+++\ntransparent = true\nsort_by = \"date\"\npaginate_by = 5\n+++\n");
    out
}

/// The RFC 3339 text of the date that chrono reads from the RFC 2822 text
/// `date`, or `None` when chrono cannot read it.
pub uninterp spec fn rfc3339_of(date: Seq<char>) -> Option<Seq<char>>;

/// Optional text as a sequence of characters.
pub open spec fn opt_text(o: Option<String>) -> Option<Seq<char>> {
    match o {
        Some(t) => Some(t@),
        None => None,
    }
}

/// Relies on chrono's `DateTime::parse_from_rfc2822`, then `to_rfc3339` on what
/// it read: the date written again in RFC 3339; `None` when it cannot be read.
#[verifier::external_body]
fn rfc2822_to_rfc3339(date: &str) -> (r: Option<String>)
    ensures
        opt_text(r) == rfc3339_of(date@),
{
    chrono::DateTime::parse_from_rfc2822(date).ok().map(|d| d.to_rfc3339())
}

/// The page file for a post: its title escaped, its RFC 2822 date written in
/// RFC 3339, and its markdown; `None` when the date cannot be read.
pub fn page_for(title: &str, pub_date: &str, markdown: &str) -> (r: Option<String>)
    ensures
        match rfc3339_of(pub_date@) {
            None => r is None,
            Some(d) => r matches Some(p) && p@ == page_text(escape_quotes(title@), d, markdown@),
        },
{
    match rfc2822_to_rfc3339(pub_date) {
        None => None,
        Some(date) => {
            let escaped = escape_title(title);
            Some(page_file(escaped.as_str(), date.as_str(), markdown))
        },
    }
}

/// The sections seen so far, so that each gets its index file once.
pub struct SectionTracker {
    seen: Vec<String>,
}

impl View for SectionTracker {
    type V = Set<Seq<char>>;

    closed spec fn view(&self) -> Set<Seq<char>> {
        Set::new(|k: Seq<char>| exists|i: int| 0 <= i < self.seen.len() && #[trigger] self.seen@[i]@ == k)
    }
}

impl SectionTracker {
    /// No section seen yet.
    pub fn new() -> (r: SectionTracker)
        ensures
            r@ == Set::<Seq<char>>::empty(),
    {
        let r = SectionTracker { seen: Vec::new() };
        assert(r@ =~= Set::<Seq<char>>::empty());
        r
    }

    /// Records `section`; true when it had not been seen before.
    pub fn first_visit(&mut self, section: &str) -> (r: bool)
        ensures
            r == !old(self)@.contains(section@),
            final(self)@ == old(self)@.insert(section@),
    {
        let key = section.to_owned();
        let mut i: usize = 0;
        while i < self.seen.len()
            invariant
                key@ == section@,
                i <= self.seen.len(),
                forall|j: int| 0 <= j < i ==> #[trigger] self.seen@[j]@ != section@,
            decreases self.seen.len() - i,
        {
            if self.seen[i] == key {
                assert(self@.contains(section@));
                assert(self@.insert(section@) =~= self@);
                return false;
            }
            i = i + 1;
        }
        let ghost before = self@;
        self.seen.push(key);
        proof {
            assert(!before.contains(section@));
            assert forall|k: Seq<char>| #[trigger] self@.contains(k) == before.insert(section@).contains(k) by {
                if before.contains(k) {
                    let j = choose|j: int| 0 <= j < old(self).seen.len() && #[trigger] old(self).seen@[j]@ == k;
                    assert(self.seen@[j]@ == k);
                }
                if self@.contains(k) {
                    let j = choose|j: int| 0 <= j < self.seen.len() && #[trigger] self.seen@[j]@ == k;
                    if j < old(self).seen.len() {
                        assert(old(self).seen@[j] == self.seen@[j]);
                    }
                }
                if k == section@ {
                    assert(self.seen@[self.seen.len() - 1]@ == k);
                }
            }
            assert(self@ =~= before.insert(section@));
        }
        true
    }
}

} // verus!
