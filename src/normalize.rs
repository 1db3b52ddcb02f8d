//! The paragraph normaliser: blank-line runs in the text directly under a
//! document's body become empty paragraph elements.
use vstd::prelude::*;

use crate::blank_lines::chars_of;
use crate::children::{
    children_of, children_of_texts, expand, kept_below, lemma_expand_kept_below, lists_splitting,
    match_views, opt_views, scan_blank_texts, splice_blank_texts, splits, views, Child,
    ChildView,
};
use crate::dom::{
    child_markups, child_markups_of, element_markup, element_markup_of, names_under,
    names_under_of, text_markup, text_markup_of, texts_under, texts_under_of, top_names,
    top_names_of,
};

verus! {

/// Why a fragment could not be normalised.
#[derive(Debug, PartialEq, Eq, Structural)]
pub enum NormalizeError {
    /// The parsed document has no `html` element, or that has no `body`.
    StructureMissing,
}

/// The code of `c`, with ASCII upper-case letters taken to lower case.
pub open spec fn ascii_lower(c: char) -> int {
    if 65 <= (c as u32) <= 90 {
        (c as u32) + 32
    } else {
        c as int
    }
}

/// `a` and `b` are equal when ASCII letters are compared without case.
pub open spec fn eq_ignore_ascii_case(a: Seq<char>, b: Seq<char>) -> bool {
    a.len() == b.len() && forall|i: int| 0 <= i < a.len() ==> ascii_lower(a[i]) == ascii_lower(b[i])
}

fn lower_code(c: char) -> (r: u32)
    ensures
        r as int == ascii_lower(c),
{
    let u = c as u32;
    if 65 <= u && u <= 90 {
        u + 32
    } else {
        u
    }
}

/// Whether `a` and `b` are equal when ASCII letters are compared without case.
pub fn equal_ignoring_ascii_case(a: &str, b: &str) -> (r: bool)
    ensures
        r == eq_ignore_ascii_case(a@, b@),
{
    let xs = chars_of(a);
    let ys = chars_of(b);
    if xs.len() != ys.len() {
        return false;
    }
    let mut i: usize = 0;
    while i < xs.len()
        invariant
            xs@ == a@,
            ys@ == b@,
            xs.len() == ys.len(),
            i <= xs.len(),
            forall|j: int| 0 <= j < i ==> ascii_lower(a@[j]) == ascii_lower(b@[j]),
        decreases xs.len() - i,
    {
        if lower_code(xs[i]) != lower_code(ys[i]) {
            return false;
        }
        i = i + 1;
    }
    true
}

/// The position of the first name in `names` that is `tag`, without regard to
/// ASCII case (`None` in `names` stands for a node that is no element).
pub open spec fn first_named(names: Seq<Option<Seq<char>>>, tag: Seq<char>) -> Option<int>
    decreases names.len(),
{
    if names.len() == 0 {
        None
    } else {
        match first_named(names.drop_last(), tag) {
            Some(i) => Some(i),
            None => if names.last() matches Some(n) && eq_ignore_ascii_case(n, tag) {
                Some(names.len() - 1)
            } else {
                None
            },
        }
    }
}

proof fn lemma_first_named_prefix(names: Seq<Option<Seq<char>>>, tag: Seq<char>, m: int)
    requires
        0 <= m <= names.len(),
        first_named(names.take(m), tag) is Some,
    ensures
        first_named(names, tag) == first_named(names.take(m), tag),
    decreases names.len() - m,
{
    if m == names.len() {
        assert(names.take(m) =~= names);
    } else {
        assert(names.take(m + 1).drop_last() =~= names.take(m));
        lemma_first_named_prefix(names, tag, m + 1);
    }
}

proof fn lemma_first_named_in_range(names: Seq<Option<Seq<char>>>, tag: Seq<char>)
    ensures
        first_named(names, tag) matches Some(i) ==> 0 <= i < names.len(),
    decreases names.len(),
{
    if names.len() > 0 {
        lemma_first_named_in_range(names.drop_last(), tag);
    }
}

/// The position of the first element named `tag`, without regard to ASCII
/// case, among the element names `names` of a node's children (`None` for a
/// child that is no element).
pub fn find_child_element(names: &Vec<Option<String>>, tag: &str) -> (r: Option<usize>)
    ensures
        r matches Some(i) ==> i < names.len() && first_named(opt_views(names@), tag@) == Some(i as int),
        r is None ==> first_named(opt_views(names@), tag@) is None,
{
    let ghost v = opt_views(names@);
    let mut i: usize = 0;
    assert(v.take(0) =~= seq![]);
    while i < names.len()
        invariant
            v == opt_views(names@),
            i <= names.len(),
            first_named(v.take(i as int), tag@) is None,
        decreases names.len() - i,
    {
        assert(v.take(i + 1).drop_last() =~= v.take(i as int));
        assert(v.take(i + 1).last() == v[i as int]);
        match &names[i] {
            Some(n) => {
                if equal_ignoring_ascii_case(n.as_str(), tag) {
                    proof {
                        lemma_first_named_prefix(v, tag@, i + 1);
                    }
                    return Some(i);
                }
            },
            None => {},
        }
        i = i + 1;
    }
    assert(v.take(i as int) =~= v);
    None
}

/// The children with each blank-line run in a direct text child made a
/// paragraph marker, or `None` when no child holds a blank-line run.
pub fn normalize_children(children: Vec<Child>) -> (r: Option<Vec<Child>>)
    ensures
        r is None <==> forall|i: int| 0 <= i < children.len() ==> !splits(#[trigger] children@[i]@),
        r matches Some(v) ==> views(v@) == expand(views(children@)),
{
    let ghost cs = views(children@);
    let matches = scan_blank_texts(&children);
    proof {
        assert(lists_splitting(cs, match_views(matches@)));
    }
    if matches.len() == 0 {
        proof {
            assert forall|i: int| 0 <= i < children.len() implies !splits(
                #[trigger] children@[i]@,
            ) by {
                assert(cs[i] == children@[i]@);
            }
        }
        return None;
    }
    proof {
        let i = match_views(matches@)[0].0;
        assert(splits(cs[i]));
        assert(cs[i] == children@[i]@);
    }
    let mut out = children;
    splice_blank_texts(&mut out, &matches);
    Some(out)
}

/// The markup of one child: a text or a marker as html5ever writes a new node
/// of that kind, a kept child as its markup in `kept`.
pub open spec fn piece_markup(c: ChildView, tag: Seq<char>, kept: Seq<Seq<char>>) -> Seq<char> {
    match c {
        ChildView::Text(t) => text_markup_of(t),
        ChildView::Paragraph => element_markup_of(tag),
        ChildView::Kept(k) => kept[k],
    }
}

/// The markup of a list of children, one after the other. html5ever writes
/// a node's children this way: its serializer is back in its starting state
/// after each child.
pub open spec fn pieces_markup(cs: Seq<ChildView>, tag: Seq<char>, kept: Seq<Seq<char>>) -> Seq<
    char,
>
    decreases cs.len(),
{
    if cs.len() == 0 {
        seq![]
    } else {
        pieces_markup(cs.drop_last(), tag, kept) + piece_markup(cs.last(), tag, kept)
    }
}

/// The markup of `pieces`, the markers being elements named `tag` and each
/// kept child `k` written as `kept[k]`.
pub fn markup_of_pieces(pieces: &Vec<Child>, tag: &str, kept: &Vec<String>) -> (r: String)
    requires
        kept_below(views(pieces@), kept.len() as int),
    ensures
        r@ == pieces_markup(views(pieces@), tag@, kept@.map_values(|m: String| m@)),
{
    let ghost kv = kept@.map_values(|m: String| m@);
    let mut out = String::new();
    let mut p: usize = 0;
    assert(views(pieces@).take(0) =~= seq![]);
    while p < pieces.len()
        invariant
            kv == kept@.map_values(|m: String| m@),
            kept_below(views(pieces@), kept.len() as int),
            p <= pieces.len(),
            out@ == pieces_markup(views(pieces@).take(p as int), tag@, kv),
        decreases pieces.len() - p,
    {
        assert(views(pieces@).take(p + 1).drop_last() =~= views(pieces@).take(p as int));
        assert(views(pieces@).take(p + 1).last() == pieces@[p as int]@);
        assert(views(pieces@)[p as int] == pieces@[p as int]@);
        match &pieces[p] {
            Child::Text(t) => {
                let m = text_markup(t.as_str());
                out.append(m.as_str());
            },
            Child::Paragraph => {
                let m = element_markup(tag);
                out.append(m.as_str());
            },
            Child::Kept(k) => {
                out.append(kept[*k].as_str());
            },
        }
        p = p + 1;
    }
    assert(views(pieces@).take(p as int) =~= views(pieces@));
    out
}

/// html5ever's markup for the body (child `j` of the document's child `i` in
/// the parse of `content`) once its children are `pieces`.
pub open spec fn markup_of(
    content: Seq<char>,
    i: int,
    j: int,
    pieces: Seq<ChildView>,
    tag: Seq<char>,
) -> Seq<char> {
    pieces_markup(pieces, tag, child_markups_of(content, i, j))
}

/// Where the body is in the parse of `content`: the position `i` of the
/// first `html` element among the document's children, and the position `j`
/// of the first `body` element among its children; `None` when either is
/// missing.
pub open spec fn body_position(content: Seq<char>) -> Option<(int, int)> {
    match first_named(top_names_of(content), "html"@) {
        None => None,
        Some(i) => match first_named(names_under_of(content, i), "body"@) {
            None => None,
            Some(j) => Some((i, j)),
        },
    }
}

/// The body's children in the parse of `content`, the body being child `j`
/// of the document's child `i`.
pub open spec fn parsed_children(content: Seq<char>, i: int, j: int) -> Seq<ChildView> {
    children_of_texts(texts_under_of(content, i, j))
}

/// The normalised markup: `content` itself when no direct text child of the
/// body holds a blank-line run, and otherwise the body serialized anew with
/// each such child replaced by its segments and a `p` marker between each two.
pub open spec fn normalized_markup(content: Seq<char>, i: int, j: int) -> Seq<char> {
    let cs = parsed_children(content, i, j);
    if exists|p: int| 0 <= p < cs.len() && #[trigger] splits(cs[p]) {
        markup_of(content, i, j, expand(cs), "p"@)
    } else {
        content
    }
}

/// Rewrites blank-line runs in the text directly under the body of `content`
/// into empty paragraph elements, as the blog platform does before it shows a
/// post. Text inside elements is left alone. When nothing is rewritten the
/// result is `content` itself; otherwise it is the body serialized anew.
/// A parse without an `html` element holding a `body` (a frameset document,
/// say) gives `StructureMissing`.
pub fn transform_html(content: &str) -> (r: Result<String, NormalizeError>)
    ensures
        match body_position(content@) {
            None => r == Err::<String, NormalizeError>(NormalizeError::StructureMissing),
            Some((i, j)) => r matches Ok(s) && s@ == normalized_markup(content@, i, j),
        },
{
    let top = top_names(content);
    let i = match find_child_element(&top, "html") {
        Some(i) => i,
        None => return Err(NormalizeError::StructureMissing),
    };
    let under = names_under(content, i);
    let j = match find_child_element(&under, "body") {
        Some(j) => j,
        None => return Err(NormalizeError::StructureMissing),
    };
    let texts = texts_under(content, i, j);
    let children = children_of(&texts);
    let ghost cs = views(children@);
    let ghost given = children@;
    let ghost n = texts@.len() as int;
    proof {
        assert(cs == parsed_children(content@, i as int, j as int));
        assert(opt_views(texts@).len() == n);
        assert(kept_below(cs, n));
    }
    match normalize_children(children) {
        None => {
            proof {
                assert forall|p: int| 0 <= p < cs.len() implies !#[trigger] splits(cs[p]) by {
                    assert(cs[p] == given[p]@);
                }
            }
            Ok(content.to_owned())
        },
        Some(spliced) => {
            proof {
                lemma_expand_kept_below(cs, n);
                let q = choose|q: int| 0 <= q < given.len() && splits(#[trigger] given[q]@);
                assert(cs[q] == given[q]@);
                assert(exists|p: int| 0 <= p < cs.len() && #[trigger] splits(cs[p]));
            }
            let kept = child_markups(content, i, j);
            Ok(markup_of_pieces(&spliced, "p", &kept))
        },
    }
}

} // verus!
