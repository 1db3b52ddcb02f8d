//! The direct children of a document's body, and how blank-line runs in their
//! text become paragraph breaks.
use vstd::prelude::*;

use crate::blank_lines::{
    contains_blank_run, gap_at, has_blank_run, law_first_run_splits, law_run_length_does_not_matter,
    pieces, segments,
    split_blank_runs,
};

verus! {

/// One direct child of the body.
pub enum Child {
    /// A text node, by its text.
    Text(String),
    /// A fresh, empty paragraph element that stands for a blank-line run.
    Paragraph,
    /// Another child of the parsed body, by its position there, kept as the
    /// parser built it.
    Kept(usize),
}

/// What a child is, with its text as a sequence of characters.
pub enum ChildView {
    Text(Seq<char>),
    Paragraph,
    Kept(int),
}

impl View for Child {
    type V = ChildView;

    open spec fn view(&self) -> ChildView {
        match self {
            Child::Text(t) => ChildView::Text(t@),
            Child::Paragraph => ChildView::Paragraph,
            Child::Kept(k) => ChildView::Kept(*k as int),
        }
    }
}

/// The views of a list of children.
pub open spec fn views(cs: Seq<Child>) -> Seq<ChildView> {
    cs.map_values(|c: Child| c@)
}

/// A child that the normaliser rewrites: a text holding a blank-line run.
pub open spec fn splits(c: ChildView) -> bool {
    c matches ChildView::Text(t) && has_blank_run(t)
}

/// Text children for `segs`, with a paragraph marker between each two.
pub open spec fn interleave(segs: Seq<Seq<char>>) -> Seq<ChildView>
    decreases segs.len(),
{
    if segs.len() == 0 {
        seq![]
    } else if segs.len() == 1 {
        seq![ChildView::Text(segs[0])]
    } else {
        interleave(segs.drop_last()) + seq![ChildView::Paragraph, ChildView::Text(segs.last())]
    }
}

/// What a child becomes: a splitting text becomes its segments with markers
/// between them; every other child stays.
pub open spec fn replacement(c: ChildView) -> Seq<ChildView> {
    if splits(c) {
        interleave(segments(c->Text_0))
    } else {
        seq![c]
    }
}

/// Every child replaced, in order.
pub open spec fn expand(cs: Seq<ChildView>) -> Seq<ChildView>
    decreases cs.len(),
{
    if cs.len() == 0 {
        seq![]
    } else {
        expand(cs.drop_last()) + replacement(cs.last())
    }
}

/// `ms` lists, in increasing order of position, each child of `cs` that splits,
/// with its position and its text.
pub open spec fn lists_splitting(cs: Seq<ChildView>, ms: Seq<(int, Seq<char>)>) -> bool {
    &&& forall|k: int|
        0 <= k < ms.len() ==> 0 <= #[trigger] ms[k].0 < cs.len() && cs[ms[k].0] == ChildView::Text(
            ms[k].1,
        ) && splits(cs[ms[k].0])
    &&& forall|k: int, l: int| 0 <= k < l < ms.len() ==> #[trigger] ms[k].0 < #[trigger] ms[l].0
    &&& forall|i: int|
        0 <= i < cs.len() && #[trigger] splits(cs[i]) ==> exists|k: int|
            0 <= k < ms.len() && #[trigger] ms[k].0 == i
}

/// The view of a list of matches.
pub open spec fn match_views(ms: Seq<(usize, String)>) -> Seq<(int, Seq<char>)> {
    ms.map_values(|m: (usize, String)| (m.0 as int, m.1@))
}

proof fn lemma_expand_append(a: Seq<ChildView>, b: Seq<ChildView>)
    ensures
        expand(a + b) == expand(a) + expand(b),
    decreases b.len(),
{
    if b.len() == 0 {
        assert(a + b =~= a);
        assert(expand(b) =~= seq![]);
        assert(expand(a) + expand(b) =~= expand(a));
    } else {
        assert((a + b).drop_last() =~= a + b.drop_last());
        lemma_expand_append(a, b.drop_last());
        assert(expand(a) + expand(b) =~= expand(a) + expand(b.drop_last()) + replacement(
            b.last(),
        ));
    }
}

proof fn lemma_expand_plain(a: Seq<ChildView>)
    requires
        forall|i: int| 0 <= i < a.len() ==> !splits(#[trigger] a[i]),
    ensures
        expand(a) == a,
    decreases a.len(),
{
    if a.len() == 0 {
        assert(expand(a) =~= a);
    } else {
        lemma_expand_plain(a.drop_last());
        assert(!splits(a[a.len() - 1]));
        assert(expand(a) =~= a.drop_last() + seq![a.last()]);
        assert(a.drop_last() + seq![a.last()] =~= a);
    }
}

proof fn lemma_views_remove(s: Seq<Child>, i: int)
    requires
        0 <= i < s.len(),
    ensures
        views(s.remove(i)) == views(s).remove(i),
{
    assert(views(s.remove(i)) =~= views(s).remove(i));
}

proof fn lemma_views_insert(s: Seq<Child>, i: int, c: Child)
    requires
        0 <= i <= s.len(),
    ensures
        views(s.insert(i, c)) == views(s).insert(i, c@),
{
    assert(views(s.insert(i, c)) =~= views(s).insert(i, c@));
}

proof fn lemma_pieces_nonempty(s: Seq<char>, start: int, i: int, skipping: bool)
    ensures
        pieces(s, start, i, skipping).len() >= 1,
    decreases s.len() - i,
{
    if i < 0 || i >= s.len() {
    } else if skipping {
        if s[i] == '\n' {
            lemma_pieces_nonempty(s, i + 1, i + 1, true);
        } else {
            lemma_pieces_nonempty(s, start, i + 1, false);
        }
    } else if gap_at(s, i) {
        lemma_pieces_nonempty(s, i + 2, i + 2, true);
    } else {
        lemma_pieces_nonempty(s, start, i + 1, false);
    }
}

proof fn lemma_interleave_len(segs: Seq<Seq<char>>)
    requires
        segs.len() >= 1,
    ensures
        interleave(segs).len() == 2 * segs.len() - 1,
    decreases segs.len(),
{
    if segs.len() > 1 {
        lemma_interleave_len(segs.drop_last());
    }
}

proof fn lemma_replacement_nonempty(c: ChildView)
    ensures
        replacement(c).len() >= 1,
{
    if splits(c) {
        lemma_pieces_nonempty(c->Text_0, 0, 0, false);
        lemma_interleave_len(segments(c->Text_0));
    }
}

proof fn lemma_expand_len(a: Seq<ChildView>)
    ensures
        expand(a).len() >= a.len(),
    decreases a.len(),
{
    if a.len() > 0 {
        lemma_expand_len(a.drop_last());
        lemma_replacement_nonempty(a.last());
    }
}

/// `expand` of a prefix one longer adds the replacement of the next child.
proof fn lemma_expand_take_succ(a: Seq<ChildView>, m: int)
    requires
        0 <= m < a.len(),
    ensures
        expand(a.take(m + 1)) == expand(a.take(m)) + replacement(a[m]),
{
    assert(a.take(m + 1).drop_last() =~= a.take(m));
}

/// `expand` over a stretch without splitting children leaves the stretch as it is.
proof fn lemma_expand_take_plain(a: Seq<ChildView>, lo: int, hi: int)
    requires
        0 <= lo <= hi <= a.len(),
        forall|i: int| lo <= i < hi ==> !splits(#[trigger] a[i]),
    ensures
        expand(a.take(hi)) == expand(a.take(lo)) + a.subrange(lo, hi),
{
    assert(a.take(hi) =~= a.take(lo) + a.subrange(lo, hi));
    lemma_expand_append(a.take(lo), a.subrange(lo, hi));
    assert forall|i: int| 0 <= i < a.subrange(lo, hi).len() implies !splits(
        #[trigger] a.subrange(lo, hi)[i],
    ) by {
        assert(a.subrange(lo, hi)[i] == a[lo + i]);
    }
    lemma_expand_plain(a.subrange(lo, hi));
}

/// A child that is no text, such as an element with all it holds, comes
/// through whole and in its place: only the children before and after it are
/// rewritten.
pub proof fn law_non_text_children_stay(cs: Seq<ChildView>, i: int)
    requires
        0 <= i < cs.len(),
        !(cs[i] is Text),
    ensures
        expand(cs) == expand(cs.take(i)) + seq![cs[i]] + expand(cs.skip(i + 1)),
{
    assert(cs =~= cs.take(i + 1) + cs.skip(i + 1));
    lemma_expand_append(cs.take(i + 1), cs.skip(i + 1));
    lemma_expand_take_succ(cs, i);
}

proof fn lemma_interleave_prepend(x: Seq<char>, rest: Seq<Seq<char>>)
    requires
        rest.len() >= 1,
    ensures
        interleave(seq![x] + rest) == seq![ChildView::Text(x), ChildView::Paragraph] + interleave(
            rest,
        ),
    decreases rest.len(),
{
    let all = seq![x] + rest;
    assert(all.drop_last() =~= seq![x] + rest.drop_last());
    if rest.len() == 1 {
        assert(seq![x] + rest.drop_last() =~= seq![x]);
        assert(interleave(seq![x]) == seq![ChildView::Text(x)]);
        assert(interleave(all) =~= seq![ChildView::Text(x), ChildView::Paragraph] + interleave(
            rest,
        ));
    } else {
        lemma_interleave_prepend(x, rest.drop_last());
        assert(all.last() == rest.last());
        assert(interleave(all) =~= seq![ChildView::Text(x), ChildView::Paragraph] + interleave(
            rest,
        ));
    }
}

/// A text child with a blank-line run becomes the text before its first run,
/// a paragraph marker, and then what the text after the run becomes; so
/// `a` + run + `b` gives the children `a`, marker, `b`.
pub proof fn law_first_run_gives_marker(a: Seq<char>, t: Seq<char>)
    requires
        !has_blank_run(a),
        a.len() == 0 || a.last() != '\n',
        t.len() == 0 || t[0] != '\n',
    ensures
        replacement(ChildView::Text(a + seq!['\n', '\n'] + t)) == seq![
            ChildView::Text(a),
            ChildView::Paragraph,
        ] + interleave(segments(t)),
{
    let s = a + seq!['\n', '\n'] + t;
    assert(gap_at(s, a.len() as int));
    law_first_run_splits(a, t);
    lemma_pieces_nonempty(t, 0, 0, false);
    lemma_interleave_prepend(a, segments(t));
}

/// A text child with a longer blank-line run becomes the same children: any
/// run of two or more newlines gives one paragraph marker.
pub proof fn law_run_length_gives_same_children(a: Seq<char>, t: Seq<char>)
    requires
        a.len() == 0 || a.last() != '\n',
    ensures
        replacement(ChildView::Text(a + seq!['\n', '\n'] + t)) == replacement(
            ChildView::Text(a + seq!['\n', '\n', '\n'] + t),
        ),
{
    let s1 = a + seq!['\n', '\n'] + t;
    let s2 = a + seq!['\n', '\n', '\n'] + t;
    assert(gap_at(s1, a.len() as int));
    assert(gap_at(s2, a.len() as int));
    law_run_length_does_not_matter(a, t);
}

/// Optional texts as sequences of characters.
pub open spec fn opt_views(v: Seq<Option<String>>) -> Seq<Option<Seq<char>>> {
    v.map_values(
        |o: Option<String>|
            match o {
                Some(t) => Some(t@),
                None => None,
            },
    )
}

/// The children of a body whose children have the texts `texts` (`None` for
/// a child that is no text): each text by its text, each other child by its
/// position.
pub open spec fn children_of_texts(texts: Seq<Option<Seq<char>>>) -> Seq<ChildView> {
    Seq::new(
        texts.len(),
        |k: int|
            match texts[k] {
                Some(t) => ChildView::Text(t),
                None => ChildView::Kept(k),
            },
    )
}

/// Every kept child in `cs` stands for a position below `n`.
pub open spec fn kept_below(cs: Seq<ChildView>, n: int) -> bool {
    forall|p: int|
        0 <= p < cs.len() ==> (#[trigger] cs[p] matches ChildView::Kept(k) ==> 0 <= k < n)
}

proof fn lemma_interleave_no_kept(segs: Seq<Seq<char>>)
    ensures
        forall|p: int| 0 <= p < interleave(segs).len() ==> !(#[trigger] interleave(segs)[p] is Kept),
    decreases segs.len(),
{
    if segs.len() > 1 {
        lemma_interleave_no_kept(segs.drop_last());
        let a = interleave(segs.drop_last());
        let b = seq![ChildView::Paragraph, ChildView::Text(segs.last())];
        assert forall|p: int| 0 <= p < interleave(segs).len() implies !(
        #[trigger] interleave(segs)[p] is Kept) by {
            if p < a.len() {
                assert(interleave(segs)[p] == a[p]);
            } else {
                assert(interleave(segs)[p] == b[p - a.len()]);
            }
        }
    }
}

/// Splicing brings in no kept child that was not there.
pub proof fn lemma_expand_kept_below(cs: Seq<ChildView>, n: int)
    requires
        kept_below(cs, n),
    ensures
        kept_below(expand(cs), n),
    decreases cs.len(),
{
    if cs.len() > 0 {
        let a = cs.drop_last();
        assert(kept_below(a, n)) by {
            assert forall|p: int| 0 <= p < a.len() implies (#[trigger] a[p] matches ChildView::Kept(
                k,
            ) ==> 0 <= k < n) by {
                assert(a[p] == cs[p]);
            }
        }
        lemma_expand_kept_below(a, n);
        let r = replacement(cs.last());
        if splits(cs.last()) {
            lemma_interleave_no_kept(segments(cs.last()->Text_0));
        }
        assert(cs.last() == cs[cs.len() - 1]);
        assert forall|p: int| 0 <= p < expand(cs).len() implies (
        #[trigger] expand(cs)[p] matches ChildView::Kept(k) ==> 0 <= k < n) by {
            if p < expand(a).len() {
                assert(expand(cs)[p] == expand(a)[p]);
            } else {
                assert(expand(cs)[p] == r[p - expand(a).len()]);
            }
        }
    }
}

/// The children of a body, from the texts of its children.
pub fn children_of(texts: &Vec<Option<String>>) -> (r: Vec<Child>)
    ensures
        views(r@) == children_of_texts(opt_views(texts@)),
{
    let mut out: Vec<Child> = Vec::new();
    let mut k: usize = 0;
    while k < texts.len()
        invariant
            k <= texts.len(),
            views(out@) == children_of_texts(opt_views(texts@)).take(k as int),
        decreases texts.len() - k,
    {
        let ghost before = views(out@);
        match &texts[k] {
            Some(t) => out.push(Child::Text(t.clone())),
            None => out.push(Child::Kept(k)),
        }
        proof {
            let c = out@[k as int];
            assert(views(out@) =~= before.push(c@));
            assert(opt_views(texts@)[k as int] == match texts@[k as int] {
                Some(t) => Some(t@),
                None => None::<Seq<char>>,
            });
            assert(children_of_texts(opt_views(texts@))[k as int] == c@);
            assert(views(out@) =~= children_of_texts(opt_views(texts@)).take(k + 1));
        }
        k = k + 1;
    }
    assert(children_of_texts(opt_views(texts@)).take(k as int) =~= children_of_texts(
        opt_views(texts@),
    ));
    out
}

/// The position and text of each child that holds a blank-line run, in order.
pub fn scan_blank_texts(children: &Vec<Child>) -> (r: Vec<(usize, String)>)
    ensures
        lists_splitting(views(children@), match_views(r@)),
{
    let ghost cs = views(children@);
    let mut out: Vec<(usize, String)> = Vec::new();
    let mut i: usize = 0;
    while i < children.len()
        invariant
            cs == views(children@),
            i <= children.len(),
            forall|k: int|
                0 <= k < out.len() ==> 0 <= #[trigger] match_views(out@)[k].0 < i && cs[match_views(
                    out@,
                )[k].0] == ChildView::Text(match_views(out@)[k].1) && splits(
                    cs[match_views(out@)[k].0],
                ),
            forall|k: int, l: int|
                0 <= k < l < out.len() ==> #[trigger] match_views(out@)[k].0
                    < #[trigger] match_views(out@)[l].0,
            forall|j: int|
                0 <= j < i && #[trigger] splits(cs[j]) ==> exists|k: int|
                    0 <= k < out.len() && #[trigger] match_views(out@)[k].0 == j,
        decreases children.len() - i,
    {
        let ghost before = match_views(out@);
        match &children[i] {
            Child::Text(t) => {
                if contains_blank_run(t.as_str()) {
                    out.push((i, t.clone()));
                    proof {
                        assert(match_views(out@) =~= before.push((i as int, t@)));
                    }
                }
            },
            _ => {},
        }
        proof {
            if splits(cs[i as int]) {
                assert(match_views(out@) =~= before.push((i as int, cs[i as int]->Text_0)));
            } else {
                assert(match_views(out@) =~= before);
            }
            assert forall|j: int| 0 <= j < i + 1 && #[trigger] splits(cs[j]) implies exists|k: int|
                0 <= k < out.len() && #[trigger] match_views(out@)[k].0 == j by {
                if j == i {
                    assert(match_views(out@)[out.len() - 1].0 == j);
                } else {
                    let k = choose|k: int| 0 <= k < before.len() && #[trigger] before[k].0 == j;
                    assert(match_views(out@)[k].0 == j);
                }
            }
        }
        i = i + 1;
    }
    out
}

/// Replaces each listed child by its segments, with a paragraph marker between
/// each two. The matches were collected before any change; a running offset,
/// the growth of the list so far, turns each listed position into its place in
/// the list as it stands.
pub fn splice_blank_texts(children: &mut Vec<Child>, matches: &Vec<(usize, String)>)
    requires
        lists_splitting(views(old(children)@), match_views(matches@)),
    ensures
        views(final(children)@) == expand(views(old(children)@)),
{
    let ghost cs = views(children@);
    let ghost ms = match_views(matches@);
    let ghost n: int = cs.len() as int;
    let ghost mut done: int = 0;
    let mut offset: usize = 0;
    let mut k: usize = 0;
    proof {
        assert(cs.take(0) =~= seq![]);
        assert(expand(cs.take(0)) =~= seq![]);
        assert(cs.skip(0) =~= cs);
        assert(views(children@) =~= expand(cs.take(0)) + cs.skip(0));
    }
    while k < matches.len()
        invariant
            n == cs.len(),
            ms == match_views(matches@),
            lists_splitting(cs, ms),
            k <= matches.len(),
            0 <= done <= n,
            k == 0 ==> done == 0,
            k > 0 ==> done == ms[k - 1].0 + 1,
            views(children@) == expand(cs.take(done)) + cs.skip(done),
            offset == children.len() - n,
        decreases matches.len() - k,
    {
        let m = matches[k].0;
        let ghost seen = done;
        proof {
            assert(ms[k as int].0 == m as int);
            assert(0 <= ms[k as int].0 < n);
            if k > 0 {
                assert(ms[k - 1].0 < ms[k as int].0);
            }
            assert forall|i: int| done <= i < m implies !splits(#[trigger] cs[i]) by {
                if splits(cs[i]) {
                    let l = choose|l: int| 0 <= l < ms.len() && #[trigger] ms[l].0 == i;
                    if l < k {
                        if l < k - 1 {
                            assert(ms[l].0 < ms[k - 1].0);
                        }
                    } else if l > k {
                        assert(ms[k as int].0 < ms[l].0);
                    }
                }
            }
            lemma_expand_take_plain(cs, done, m as int);
            lemma_expand_len(cs.take(m as int));
            assert(cs.skip(done) =~= cs.subrange(done, m as int) + cs.skip(m as int));
        }
        let ghost a = expand(cs.take(m as int));
        let ghost b = cs.skip(m + 1);
        let at = m + offset;
        proof {
            assert(views(children@) =~= a + cs.skip(m as int));
            assert(at == a.len());
        }
        let ghost pre = children@;
        children.remove(at);
        proof {
            lemma_views_remove(pre, at as int);
            assert(views(children@) =~= a + b);
        }
        let segs = split_blank_runs(matches[k].1.as_str());
        let ghost sv = segs@.map_values(|t: String| t@);
        let mut at2 = at;
        let mut t: usize = 0;
        while t < segs.len()
            invariant
                sv == segs@.map_values(|t: String| t@),
                t <= segs.len(),
                views(children@) == a + interleave(sv.take(t as int)) + b,
                at2 == a.len() + interleave(sv.take(t as int)).len(),
            decreases segs.len() - t,
        {
            let ghost mid = interleave(sv.take(t as int));
            proof {
                assert(views(children@).len() == children@.len());
                assert(sv.take(t + 1).drop_last() =~= sv.take(t as int));
                assert(sv.take(t + 1).last() == segs@[t as int]@);
                if t == 0 {
                    assert(mid =~= seq![]);
                }
            }
            if t > 0 {
                let ghost pre = children@;
                children.insert(at2, Child::Paragraph);
                proof {
                    lemma_views_insert(pre, at2 as int, Child::Paragraph);
                    assert(views(children@) =~= a + (mid + seq![ChildView::Paragraph]) + b);
                    assert(views(children@).len() == children@.len());
                }
                assert(at2 < children.len());
                at2 = at2 + 1;
            }
            let piece = Child::Text(segs[t].clone());
            let ghost pre = children@;
            children.insert(at2, piece);
            proof {
                lemma_views_insert(pre, at2 as int, piece);
                if t == 0 {
                    assert(interleave(sv.take(1)) =~= seq![ChildView::Text(segs@[0]@)]);
                    assert(views(children@) =~= a + interleave(sv.take(1)) + b);
                } else {
                    assert(views(children@) =~= a + (mid + seq![
                        ChildView::Paragraph,
                        ChildView::Text(segs@[t as int]@),
                    ]) + b);
                }
            }
            proof {
                assert(views(children@).len() == children@.len());
            }
            assert(at2 < children.len());
            at2 = at2 + 1;
            t = t + 1;
        }
        proof {
            assert(sv.take(segs.len() as int) =~= sv);
            assert(sv == segments(ms[k as int].1));
            assert(replacement(cs[m as int]) == interleave(sv));
            lemma_expand_take_succ(cs, m as int);
            lemma_replacement_nonempty(cs[m as int]);
            done = m + 1;
        }
        offset = at2 - (m + 1);
        k = k + 1;
    }
    proof {
        assert forall|i: int| done <= i < n implies !splits(#[trigger] cs[i]) by {
            if splits(cs[i]) {
                let l = choose|l: int| 0 <= l < ms.len() && #[trigger] ms[l].0 == i;
                if l < k - 1 {
                    assert(ms[l].0 < ms[k - 1].0);
                }
            }
        }
        lemma_expand_take_plain(cs, done, n);
        assert(cs.take(n) =~= cs);
        assert(cs.skip(done) =~= cs.subrange(done, n));
    }
}

} // verus!
