//! Blank-line runs: two or more consecutive newlines inside one text.
use vstd::prelude::*;
use vstd::string::StrSliceExecFns;

verus! {

broadcast use vstd::string::group_string_axioms;

/// A blank-line run starts at `i`: the characters at `i` and `i + 1` are both newlines.
pub open spec fn gap_at(s: Seq<char>, i: int) -> bool {
    0 <= i && i + 1 < s.len() && s[i] == '\n' && s[i + 1] == '\n'
}

/// `s` holds at least one blank-line run.
pub open spec fn has_blank_run(s: Seq<char>) -> bool {
    exists|i: int| gap_at(s, i)
}

/// The segments of `s` from position `i` on, when the segment under way began at
/// `start`; `skipping` holds while the newlines of a run are being passed over.
/// A scan from the left: the first two newlines in a row open a run, the run takes
/// every newline that follows, and the text before it closes a segment.
pub open spec fn pieces(s: Seq<char>, start: int, i: int, skipping: bool) -> Seq<Seq<char>>
    decreases s.len() - i,
{
    if i < 0 || i >= s.len() {
        seq![s.subrange(start, s.len() as int)]
    } else if skipping {
        if s[i] == '\n' {
            pieces(s, i + 1, i + 1, true)
        } else {
            pieces(s, start, i + 1, false)
        }
    } else if gap_at(s, i) {
        seq![s.subrange(start, i)] + pieces(s, i + 2, i + 2, true)
    } else {
        pieces(s, start, i + 1, false)
    }
}

/// The texts that the blank-line runs of `s` separate, in order: one more than
/// there are runs, empty ones included.
pub open spec fn segments(s: Seq<char>) -> Seq<Seq<char>> {
    pieces(s, 0, 0, false)
}

proof fn lemma_pieces_without_gap(s: Seq<char>, start: int, i: int)
    requires
        0 <= start <= i <= s.len(),
        !has_blank_run(s),
    ensures
        pieces(s, start, i, false) == seq![s.subrange(start, s.len() as int)],
    decreases s.len() - i,
{
    if i < s.len() {
        assert(!gap_at(s, i));
        lemma_pieces_without_gap(s, start, i + 1);
    }
}

/// A text without a blank-line run is a single segment: single newlines never
/// split a text.
pub proof fn law_single_newlines_do_not_split(s: Seq<char>)
    requires
        !has_blank_run(s),
    ensures
        segments(s) == seq![s],
{
    lemma_pieces_without_gap(s, 0, 0);
    assert(s.subrange(0, s.len() as int) =~= s);
}

/// The scan depends only on the text from where the segment under way began.
proof fn lemma_pieces_shift(
    s1: Seq<char>,
    s2: Seq<char>,
    d1: int,
    d2: int,
    start: int,
    i: int,
    skipping: bool,
)
    requires
        0 <= d1 <= start <= i <= s1.len(),
        0 <= d2,
        s1.skip(d1) == s2.skip(d2),
        d1 <= s1.len(),
        d2 <= s2.len(),
    ensures
        pieces(s1, start, i, skipping) == pieces(s2, start - d1 + d2, i - d1 + d2, skipping),
    decreases s1.len() - i,
{
    let e = d2 - d1;
    assert(s1.skip(d1).len() == s1.len() - d1);
    assert(s2.skip(d2).len() == s2.len() - d2);
    assert forall|j: int| d1 <= j < s1.len() implies s1[j] == s2[j + e] by {
        assert(s1.skip(d1)[j - d1] == s1[j]);
        assert(s2.skip(d2)[j - d1] == s2[j + e]);
    }
    if i < s1.len() {
        assert(s1[i] == s2[i + e]);
        if i + 1 < s1.len() {
            assert(s1[i + 1] == s2[i + 1 + e]);
        }
        assert(gap_at(s1, i) == gap_at(s2, i + e));
        if skipping {
            if s1[i] == '\n' {
                lemma_pieces_shift(s1, s2, d1, d2, i + 1, i + 1, true);
            } else {
                lemma_pieces_shift(s1, s2, d1, d2, start, i + 1, false);
            }
        } else if gap_at(s1, i) {
            assert(s1.subrange(start, i) =~= s2.subrange(start + e, i + e));
            lemma_pieces_shift(s1, s2, d1, d2, i + 2, i + 2, true);
        } else {
            lemma_pieces_shift(s1, s2, d1, d2, start, i + 1, false);
        }
    } else {
        assert(s1.subrange(start, s1.len() as int) =~= s2.subrange(start + e, s2.len() as int));
    }
}

/// Two texts that agree up to a blank-line run starting at `l` are scanned
/// alike up to that run.
proof fn lemma_pieces_common_prefix(
    s1: Seq<char>,
    s2: Seq<char>,
    l: int,
    start: int,
    i: int,
    skipping: bool,
)
    requires
        0 <= start <= i <= l,
        l + 2 <= s1.len(),
        l + 2 <= s2.len(),
        s1.take(l + 2) == s2.take(l + 2),
        s1[l] == '\n' && s1[l + 1] == '\n',
        l == 0 || s1[l - 1] != '\n',
        i == l ==> !skipping,
        skipping ==> start == i,
        pieces(s1, l + 2, l + 2, true) == pieces(s2, l + 2, l + 2, true),
    ensures
        pieces(s1, start, i, skipping) == pieces(s2, start, i, skipping),
    decreases l - i,
{
    assert forall|j: int| 0 <= j < l + 2 implies s1[j] == s2[j] by {
        assert(s1.take(l + 2)[j] == s1[j]);
        assert(s2.take(l + 2)[j] == s2[j]);
    }
    if i == l {
        assert(gap_at(s1, i) && gap_at(s2, i));
        assert(!skipping);
        assert(s1.subrange(start, i) =~= s2.subrange(start, i));
        assert(pieces(s1, start, i, false) == seq![s1.subrange(start, i)] + pieces(s1, i + 2, i + 2, true));
        assert(pieces(s2, start, i, false) == seq![s2.subrange(start, i)] + pieces(s2, i + 2, i + 2, true));
    } else {
        assert(s1[i] == s2[i]);
        assert(gap_at(s1, i) == gap_at(s2, i));
        if skipping {
            if s1[i] == '\n' {
                lemma_pieces_common_prefix(s1, s2, l, i + 1, i + 1, true);
                assert(pieces(s1, start, i, skipping) == pieces(s1, i + 1, i + 1, true));
                assert(pieces(s2, start, i, skipping) == pieces(s2, i + 1, i + 1, true));
            } else {
                lemma_pieces_common_prefix(s1, s2, l, start, i + 1, false);
                assert(pieces(s1, start, i, skipping) == pieces(s1, start, i + 1, false));
                assert(pieces(s2, start, i, skipping) == pieces(s2, start, i + 1, false));
            }
        } else if gap_at(s1, i) {
            lemma_pieces_common_prefix(s1, s2, l, i + 2, i + 2, true);
            assert(s1.subrange(start, i) =~= s2.subrange(start, i));
        } else {
            lemma_pieces_common_prefix(s1, s2, l, start, i + 1, false);
        }
    }
}

/// However long a blank-line run is, it separates the same segments: one more
/// newline in a run leaves the segments as they are.
pub proof fn law_run_length_does_not_matter(a: Seq<char>, t: Seq<char>)
    requires
        a.len() == 0 || a.last() != '\n',
    ensures
        segments(a + seq!['\n', '\n'] + t) == segments(a + seq!['\n', '\n', '\n'] + t),
{
    let s1 = a + seq!['\n', '\n'] + t;
    let s2 = a + seq!['\n', '\n', '\n'] + t;
    let l = a.len() as int;
    assert(s1.skip(l + 2) =~= t);
    assert(s2.skip(l + 3) =~= t);
    assert(s2[l + 2] == '\n');
    lemma_pieces_shift(s1, s2, l + 2, l + 3, l + 2, l + 2, true);
    assert(pieces(s2, l + 2, l + 2, true) == pieces(s2, l + 3, l + 3, true));
    assert(s1.take(l + 2) =~= s2.take(l + 2));
    if l > 0 {
        assert(s1[l - 1] == a.last());
    }
    lemma_pieces_common_prefix(s1, s2, l, 0, 0, false);
}

proof fn lemma_pieces_no_gap_between(s: Seq<char>, start: int, i: int, l: int)
    requires
        0 <= start <= i <= l <= s.len(),
        forall|k: int| i <= k < l ==> !gap_at(s, k),
    ensures
        pieces(s, start, i, false) == pieces(s, start, l, false),
    decreases l - i,
{
    if i < l {
        assert(!gap_at(s, i));
        lemma_pieces_no_gap_between(s, start, i + 1, l);
    }
}

/// A text splits at its first blank-line run: the text before the run is the
/// first segment, and the segments of the text after it follow. With an empty
/// rest, a trailing run still closes an empty last segment.
pub proof fn law_first_run_splits(a: Seq<char>, t: Seq<char>)
    requires
        !has_blank_run(a),
        a.len() == 0 || a.last() != '\n',
        t.len() == 0 || t[0] != '\n',
    ensures
        segments(a + seq!['\n', '\n'] + t) == seq![a] + segments(t),
{
    let s = a + seq!['\n', '\n'] + t;
    let l = a.len() as int;
    assert forall|k: int| 0 <= k < l implies !gap_at(s, k) by {
        if k + 1 < l {
            assert(s[k] == a[k] && s[k + 1] == a[k + 1]);
            assert(!gap_at(a, k));
        } else {
            assert(s[k] == a.last());
        }
    }
    lemma_pieces_no_gap_between(s, 0, 0, l);
    assert(gap_at(s, l));
    assert(s.subrange(0, l) =~= a);
    assert(s.skip(l + 2) =~= t);
    assert(t.skip(0) =~= t);
    assert(pieces(s, 0, l, false) == seq![a] + pieces(s, l + 2, l + 2, true));
    if t.len() == 0 {
        assert(s.subrange(l + 2, s.len() as int) =~= t);
        assert(segments(t) == seq![t.subrange(0, 0)]);
        assert(t.subrange(0, 0) =~= t);
    } else {
        assert(s[l + 2] == t[0]);
        assert(!gap_at(t, 0));
        lemma_pieces_shift(s, t, l + 2, 0, l + 2, l + 3, false);
        assert(pieces(s, l + 2, l + 2, true) == pieces(s, l + 2, l + 3, false));
        assert(segments(t) == pieces(t, 0, 1, false));
    }
    assert(segments(s) == seq![a] + pieces(s, l + 2, l + 2, true));
}

/// The characters of `s`, in order.
pub(crate) fn chars_of(s: &str) -> (r: Vec<char>)
    ensures
        r@ == s@,
{
    let mut out: Vec<char> = Vec::new();
    for c in it: s.chars()
        invariant
            it.seq() == s@,
            out@ == s@.take(it.index() as int),
    {
        out.push(c);
    }
    assert(out@ =~= s@);
    out
}

/// Whether `s` holds a blank-line run.
pub fn contains_blank_run(s: &str) -> (r: bool)
    ensures
        r == has_blank_run(s@),
{
    let cs = chars_of(s);
    let n = cs.len();
    let mut i: usize = 0;
    while i < n
        invariant
            cs@ == s@,
            n == cs.len(),
            i <= n,
            forall|j: int| 0 <= j < i ==> !gap_at(s@, j),
        decreases n - i,
    {
        if i + 1 < n && cs[i] == '\n' && cs[i + 1] == '\n' {
            assert(gap_at(s@, i as int));
            return true;
        }
        i = i + 1;
    }
    assert forall|j: int| !gap_at(s@, j) by {
        if 0 <= j < i {
        }
    }
    false
}

/// The texts between the blank-line runs of `s`, in order.
pub fn split_blank_runs(s: &str) -> (r: Vec<String>)
    ensures
        r@.map_values(|t: String| t@) == segments(s@),
{
    let cs = chars_of(s);
    let n = cs.len();
    let mut out: Vec<String> = Vec::new();
    let mut start: usize = 0;
    let mut i: usize = 0;
    let mut skipping = false;
    while i < n
        invariant
            cs@ == s@,
            n == cs.len(),
            start <= i <= n,
            skipping ==> start == i,
            out@.map_values(|t: String| t@) + pieces(s@, start as int, i as int, skipping)
                == segments(s@),
        decreases n - i,
    {
        let ghost before = out@.map_values(|t: String| t@);
        if skipping {
            if cs[i] == '\n' {
                i = i + 1;
                start = i;
            } else {
                i = i + 1;
                skipping = false;
            }
        } else if i + 1 < n && cs[i] == '\n' && cs[i + 1] == '\n' {
            let seg = s.substring_char(start, i).to_owned();
            out.push(seg);
            proof {
                assert(out@.map_values(|t: String| t@) =~= before.push(s@.subrange(
                    start as int,
                    i as int,
                )));
                let rest = pieces(s@, i + 2, i + 2, true);
                assert(before + (seq![s@.subrange(start as int, i as int)] + rest) =~= before.push(
                    s@.subrange(start as int, i as int),
                ) + rest);
            }
            i = i + 2;
            start = i;
            skipping = true;
        } else {
            i = i + 1;
        }
    }
    let last = s.substring_char(start, n).to_owned();
    let ghost before = out@.map_values(|t: String| t@);
    out.push(last);
    proof {
        assert(out@.map_values(|t: String| t@) =~= before + seq![s@.subrange(start as int, n as int)]);
    }
    out
}

} // verus!
