//! The HTML parser and serializer of html5ever, over markup5ever_rcdom's tree.
//! The library sees a parsed document through plain values only: the names,
//! texts and markup of children at given positions, each a function of the
//! content alone, as the parse is; and the markup of a new text or element.
use std::cell::RefCell;

use html5ever::tendril::TendrilSink;
use html5ever::tree_builder::TreeBuilderOpts;
use html5ever::serialize::{SerializeOpts, TraversalScope};
use html5ever::{ParseOpts, QualName};
use markup5ever_rcdom::{Node, NodeData, RcDom, SerializableHandle};
use vstd::prelude::*;

use crate::children::opt_views;

verus! {

/// The element name of each child of the document that html5ever parses from
/// `content`, doctypes dropped (`None` for a child that is no element).
pub uninterp spec fn top_names_of(content: Seq<char>) -> Seq<Option<Seq<char>>>;

/// The element name of each child of the document's child `i`, in that parse.
pub uninterp spec fn names_under_of(content: Seq<char>, i: int) -> Seq<Option<Seq<char>>>;

/// The text of each child of child `j` of the document's child `i`, in that
/// parse (`None` for a child that is no text).
pub uninterp spec fn texts_under_of(content: Seq<char>, i: int, j: int) -> Seq<Option<Seq<char>>>;

/// html5ever's markup for each child of child `j` of the document's child `i`,
/// in that parse, each serialized whole.
pub uninterp spec fn child_markups_of(content: Seq<char>, i: int, j: int) -> Seq<Seq<char>>;

/// html5ever's markup for a text node holding `text`.
pub uninterp spec fn text_markup_of(text: Seq<char>) -> Seq<char>;

/// html5ever's markup for an empty element named `tag`, without namespace or
/// attributes.
pub uninterp spec fn element_markup_of(tag: Seq<char>) -> Seq<char>;

/// Relies on html5ever::parse_document and markup5ever_rcdom's `NodeData`: the
/// element names of the document's children.
#[verifier::external_body]
pub(crate) fn top_names(content: &str) -> (r: Vec<Option<String>>)
    ensures
        opt_views(r@) == top_names_of(content@),
{
    let opts = ParseOpts { tree_builder: TreeBuilderOpts { drop_doctype: true, ..Default::default() }, ..Default::default() };
    let doc = html5ever::parse_document(RcDom::default(), opts).one(content).document;
    let names = doc.children.borrow().iter().map(|c| match &c.data { NodeData::Element { name, .. } => Some(name.local.to_string()), _ => None }).collect();
    names
}

/// Relies on html5ever::parse_document and markup5ever_rcdom's `NodeData`: the
/// element names of the children of the document's child `i`.
#[verifier::external_body]
pub(crate) fn names_under(content: &str, i: usize) -> (r: Vec<Option<String>>)
    requires
        i < top_names_of(content@).len(),
    ensures
        opt_views(r@) == names_under_of(content@, i as int),
{
    let opts = ParseOpts { tree_builder: TreeBuilderOpts { drop_doctype: true, ..Default::default() }, ..Default::default() };
    let doc = html5ever::parse_document(RcDom::default(), opts).one(content).document;
    let node = doc.children.borrow()[i].clone();
    let names = node.children.borrow().iter().map(|c| match &c.data { NodeData::Element { name, .. } => Some(name.local.to_string()), _ => None }).collect();
    names
}

/// Relies on html5ever::parse_document and markup5ever_rcdom's `NodeData`: the
/// texts of the children of child `j` of the document's child `i`.
#[verifier::external_body]
pub(crate) fn texts_under(content: &str, i: usize, j: usize) -> (r: Vec<Option<String>>)
    requires
        i < top_names_of(content@).len(),
        j < names_under_of(content@, i as int).len(),
    ensures
        opt_views(r@) == texts_under_of(content@, i as int, j as int),
{
    let opts = ParseOpts { tree_builder: TreeBuilderOpts { drop_doctype: true, ..Default::default() }, ..Default::default() };
    let doc = html5ever::parse_document(RcDom::default(), opts).one(content).document;
    let node = doc.children.borrow()[i].children.borrow()[j].clone();
    let texts = node.children.borrow().iter().map(|c| match &c.data { NodeData::Text { contents } => Some(contents.borrow().to_string()), _ => None }).collect();
    texts
}

/// Relies on html5ever::parse_document and html5ever::serialize, each node
/// whole: the markup of each child of child `j` of the document's child `i`.
/// Writing into a `Vec` does not fail.
#[verifier::external_body]
pub(crate) fn child_markups(content: &str, i: usize, j: usize) -> (r: Vec<String>)
    requires
        i < top_names_of(content@).len(),
        j < names_under_of(content@, i as int).len(),
    ensures
        r@.map_values(|m: String| m@) == child_markups_of(content@, i as int, j as int),
        r@.len() == texts_under_of(content@, i as int, j as int).len(),
{
    let opts = ParseOpts { tree_builder: TreeBuilderOpts { drop_doctype: true, ..Default::default() }, ..Default::default() };
    let doc = html5ever::parse_document(RcDom::default(), opts).one(content).document;
    let node = doc.children.borrow()[i].children.borrow()[j].clone();
    let markups = node.children.borrow().iter().map(|c| {
        let mut out: Vec<u8> = Vec::new();
        html5ever::serialize(&mut out, &SerializableHandle::from(c.clone()), SerializeOpts { traversal_scope: TraversalScope::IncludeNode, ..Default::default() }).expect("writing into a Vec");
        String::from_utf8_lossy(&out).into_owned()
    }).collect();
    markups
}

/// Relies on markup5ever_rcdom's `Node::new` and html5ever::serialize: the
/// markup of a text node holding `text`. Writing into a `Vec` does not fail.
#[verifier::external_body]
pub(crate) fn text_markup(text: &str) -> (r: String)
    ensures
        r@ == text_markup_of(text@),
{
    let node = Node::new(NodeData::Text { contents: RefCell::new(text.into()) });
    let mut out: Vec<u8> = Vec::new();
    html5ever::serialize(&mut out, &SerializableHandle::from(node), SerializeOpts { traversal_scope: TraversalScope::IncludeNode, ..Default::default() }).expect("writing into a Vec");
    String::from_utf8_lossy(&out).into_owned()
}

/// Relies on markup5ever_rcdom's `Node::new` and html5ever::serialize: the
/// markup of an empty element named `tag`, without namespace or attributes.
/// Writing into a `Vec` does not fail.
#[verifier::external_body]
pub(crate) fn element_markup(tag: &str) -> (r: String)
    ensures
        r@ == element_markup_of(tag@),
{
    let node = Node::new(NodeData::Element { name: QualName::new(None, "".into(), tag.into()), attrs: RefCell::default(), template_contents: RefCell::default(), mathml_annotation_xml_integration_point: false });
    let mut out: Vec<u8> = Vec::new();
    html5ever::serialize(&mut out, &SerializableHandle::from(node), SerializeOpts { traversal_scope: TraversalScope::IncludeNode, ..Default::default() }).expect("writing into a Vec");
    String::from_utf8_lossy(&out).into_owned()
}

} // verus!
