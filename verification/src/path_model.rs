//! The syntactic model of paths: separator-split segments, component
//! classification, and rendering of canonical absolute paths.
//!
//! A path is a sequence of characters; `/` separates segments.  A segment is
//! classified as a current-reference (`.`), a parent-reference (`..`) or a
//! named segment.  A leading `/` marks an absolute path.  Canonical absolute
//! paths are modelled as the sequence of their named segments.

use vstd::prelude::*;

verus! {

/// One syntactic component of a path, as the resolver consumes it.
#[derive(Debug)]
pub enum PathComponent {
    /// A leading `/`: the path is anchored at the filesystem root.
    RootMarker,
    /// A `.` segment.
    CurRef,
    /// A `..` segment.
    ParentRef,
    /// An ordinary named segment.
    Named(String),
}

/// The specification-level image of a `PathComponent`.
pub enum GhostComponent {
    RootMarker,
    CurRef,
    ParentRef,
    Named(Seq<char>),
}

impl View for PathComponent {
    type V = GhostComponent;

    open spec fn view(&self) -> GhostComponent {
        match self {
            PathComponent::RootMarker => GhostComponent::RootMarker,
            PathComponent::CurRef => GhostComponent::CurRef,
            PathComponent::ParentRef => GhostComponent::ParentRef,
            PathComponent::Named(s) => GhostComponent::Named(s@),
        }
    }
}

impl DeepView for PathComponent {
    type V = GhostComponent;

    open spec fn deep_view(&self) -> GhostComponent {
        self.view()
    }
}

/// The path separator.
pub open spec fn is_sep(c: char) -> bool {
    c == '/'
}

/// Length of the leading separator-free prefix of `s`.
pub open spec fn seg_len(s: Seq<char>) -> int
    decreases s.len(),
{
    if s.len() == 0 || is_sep(s[0]) {
        0
    } else {
        1 + seg_len(s.skip(1))
    }
}

/// `seg_len` lies between 0 and the length of `s`, and is positive exactly
/// when `s` starts with a non-separator character.
pub proof fn lemma_seg_len_bounds(s: Seq<char>)
    ensures
        0 <= seg_len(s) <= s.len(),
        s.len() > 0 && !is_sep(s[0]) ==> seg_len(s) >= 1,
    decreases s.len(),
{
    if s.len() > 0 && !is_sep(s[0]) {
        lemma_seg_len_bounds(s.skip(1));
    }
}

/// `s` split at separators into its segments, empty segments dropped.
pub open spec fn split_segments(s: Seq<char>) -> Seq<Seq<char>>
    decreases s.len(),
    via split_segments_decreases
{
    if s.len() == 0 {
        Seq::empty()
    } else if is_sep(s[0]) {
        split_segments(s.skip(1))
    } else {
        seq![s.take(seg_len(s))] + split_segments(s.skip(seg_len(s)))
    }
}

#[via_fn]
proof fn split_segments_decreases(s: Seq<char>) {
    if s.len() != 0 && !is_sep(s[0]) {
        lemma_seg_len_bounds(s);
    }
}

/// Classification of one segment.
pub open spec fn classify(seg: Seq<char>) -> GhostComponent {
    if seg == seq!['.'] {
        GhostComponent::CurRef
    } else if seg == seq!['.', '.'] {
        GhostComponent::ParentRef
    } else {
        GhostComponent::Named(seg)
    }
}

/// Whether `s` is an absolute path: it starts with a separator.
pub open spec fn is_absolute(s: Seq<char>) -> bool {
    s.len() > 0 && is_sep(s[0])
}

/// The component sequence of a path string: a root marker if the path is
/// absolute, then its classified segments.
pub open spec fn spec_components(s: Seq<char>) -> Seq<GhostComponent> {
    if is_absolute(s) {
        seq![GhostComponent::RootMarker] + split_segments(s).map_values(|seg| classify(seg))
    } else {
        split_segments(s).map_values(|seg| classify(seg))
    }
}

/// `pre` is a (component-wise) prefix of `s`: containment of canonical paths.
pub open spec fn is_prefix_of(pre: Seq<Seq<char>>, s: Seq<Seq<char>>) -> bool {
    pre.len() <= s.len() && s.take(pre.len() as int) == pre
}

/// A well-formed segment of a canonical path: nonempty, separator-free, and
/// not a current- or parent-reference.
pub open spec fn wf_segment(seg: Seq<char>) -> bool {
    &&& seg.len() > 0
    &&& forall|i: int| 0 <= i < seg.len() ==> !is_sep(#[trigger] seg[i])
    &&& seg != seq!['.']
    &&& seg != seq!['.', '.']
}

/// A well-formed canonical absolute path, as a segment sequence.
pub open spec fn wf_segments(ss: Seq<Seq<char>>) -> bool {
    forall|i: int| 0 <= i < ss.len() ==> wf_segment(#[trigger] ss[i])
}

/// The text of the canonical absolute path with segments `ss`.
pub open spec fn spec_render(ss: Seq<Seq<char>>) -> Seq<char> {
    if ss.len() == 0 {
        seq!['/']
    } else {
        spec_render_parts(ss)
    }
}

/// `/seg` for each segment in turn.
pub open spec fn spec_render_parts(ss: Seq<Seq<char>>) -> Seq<char>
    decreases ss.len(),
{
    if ss.len() == 0 {
        Seq::empty()
    } else {
        seq!['/'] + ss[0] + spec_render_parts(ss.skip(1))
    }
}

/// A canonical absolute path string: absolute, and every segment well formed
/// (in particular no `.` or `..` segment survives canonicalization).
pub open spec fn is_canonical_text(s: Seq<char>) -> bool {
    &&& is_absolute(s)
    &&& forall|i: int|
        0 <= i < split_segments(s).len() ==> classify(
            #[trigger] split_segments(s)[i],
        ) matches GhostComponent::Named(_)
}

/// Each segment of a path, classified.
pub open spec fn classify_all(ss: Seq<Seq<char>>) -> Seq<GhostComponent> {
    ss.map_values(|seg: Seq<char>| classify(seg))
}

/// Every character strictly before `seg_len(s)` is a non-separator, and the
/// character at `seg_len(s)`, if any, is a separator.
proof fn lemma_seg_len_chars(s: Seq<char>)
    ensures
        forall|k: int| 0 <= k < seg_len(s) ==> !is_sep(#[trigger] s[k]),
        seg_len(s) < s.len() ==> is_sep(s[seg_len(s)]),
    decreases s.len(),
{
    lemma_seg_len_bounds(s);
    if s.len() > 0 && !is_sep(s[0]) {
        lemma_seg_len_chars(s.skip(1));
        lemma_seg_len_bounds(s.skip(1));
        assert forall|k: int| 0 <= k < seg_len(s) implies !is_sep(#[trigger] s[k]) by {
            if k > 0 {
                assert(s.skip(1)[k - 1] == s[k]);
            }
        }
    }
}

/// A scan that finds no separator before `m` and one (or the end) at `m`
/// determines `seg_len`.
proof fn lemma_seg_len_is(s: Seq<char>, m: int)
    requires
        0 <= m <= s.len(),
        forall|k: int| 0 <= k < m ==> !is_sep(#[trigger] s[k]),
        m < s.len() ==> is_sep(s[m]),
    ensures
        seg_len(s) == m,
    decreases m,
{
    if m == 0 {
    } else {
        lemma_seg_len_is(s.skip(1), m - 1);
    }
}

/// Splitting after a leading separator drops that separator.
proof fn lemma_split_after_sep(s: Seq<char>, i: int)
    requires
        0 <= i < s.len(),
        is_sep(s[i]),
    ensures
        split_segments(s.skip(i)) == split_segments(s.skip(i + 1)),
{
    assert(s.skip(i).skip(1) =~= s.skip(i + 1));
}

/// A maximal non-separator run `[i, j)` is the next segment of `s.skip(i)`.
proof fn lemma_split_head_segment(s: Seq<char>, i: int, j: int)
    requires
        0 <= i < j <= s.len(),
        forall|k: int| i <= k < j ==> !is_sep(#[trigger] s[k]),
        j < s.len() ==> is_sep(s[j]),
    ensures
        split_segments(s.skip(i)) == seq![s.subrange(i, j)] + split_segments(s.skip(j)),
{
    let t = s.skip(i);
    assert forall|k: int| 0 <= k < j - i implies !is_sep(#[trigger] t[k]) by {
        assert(t[k] == s[k + i]);
    }
    lemma_seg_len_is(t, j - i);
    assert(t.take(j - i) =~= s.subrange(i, j));
    assert(t.skip(j - i) =~= s.skip(j));
}

/// Segments produced by `split_segments` are nonempty and separator-free.
proof fn lemma_split_segments_parts(s: Seq<char>)
    ensures
        forall|i: int|
            0 <= i < split_segments(s).len() ==> (#[trigger] split_segments(s)[i]).len() > 0,
        forall|i: int, k: int|
            0 <= i < split_segments(s).len() && 0 <= k < split_segments(s)[i].len() ==> !is_sep(
                #[trigger] split_segments(s)[i][k],
            ),
    decreases s.len(),
{
    if s.len() == 0 {
        assert(split_segments(s) == Seq::<Seq<char>>::empty());
    } else if is_sep(s[0]) {
        lemma_split_segments_parts(s.skip(1));
        assert(split_segments(s) == split_segments(s.skip(1)));
    } else {
        lemma_seg_len_bounds(s);
        lemma_seg_len_chars(s);
        lemma_split_segments_parts(s.skip(seg_len(s)));
        let head = s.take(seg_len(s));
        assert(split_segments(s) == seq![head] + split_segments(s.skip(seg_len(s))));
        assert(forall|k: int| 0 <= k < head.len() ==> !is_sep(#[trigger] head[k]));
        assert forall|i: int| 0 <= i < split_segments(s).len() implies (#[trigger] split_segments(
            s,
        )[i]).len() > 0 by {
            if i == 0 {
                assert(split_segments(s)[0] == head);
            } else {
                assert(split_segments(s)[i] == split_segments(s.skip(seg_len(s)))[i - 1]);
            }
        }
        assert forall|i: int, k: int|
            0 <= i < split_segments(s).len() && 0 <= k < split_segments(s)[i].len() implies !is_sep(
            #[trigger] split_segments(s)[i][k],
        ) by {
            if i == 0 {
                assert(split_segments(s)[0] == head);
            } else {
                assert(split_segments(s)[i] == split_segments(s.skip(seg_len(s)))[i - 1]);
            }
        }
    }
}

/// Rendering distributes over appending one segment at the end.
proof fn lemma_render_parts_push(ss: Seq<Seq<char>>, x: Seq<char>)
    ensures
        spec_render_parts(ss.push(x)) == spec_render_parts(ss) + seq!['/'] + x,
    decreases ss.len(),
{
    if ss.len() == 0 {
        assert(ss.push(x).skip(1) =~= ss);
        assert(spec_render_parts(ss.push(x)) =~= spec_render_parts(ss) + seq!['/'] + x);
    } else {
        lemma_render_parts_push(ss.skip(1), x);
        assert(ss.push(x).skip(1) =~= ss.skip(1).push(x));
        assert(spec_render_parts(ss.push(x)) =~= spec_render_parts(ss) + seq!['/'] + x);
    }
}

/// Parse a path string into its components: a root marker when the string is
/// absolute, then each separator-delimited segment, classified.
pub fn parse_components(s: &str) -> (r: Vec<PathComponent>)
    ensures
        r.deep_view() == spec_components(s@),
{
    let n: usize = s.unicode_len();
    let mut out: Vec<PathComponent> = Vec::new();
    if n > 0 && s.get_char(0) == '/' {
        out.push(PathComponent::RootMarker);
    }
    let mut i: usize = 0;
    proof {
        assert(s@.skip(0) =~= s@);
    }
    while i < n
        invariant
            i <= n,
            n == s@.len(),
            out.deep_view() + classify_all(split_segments(s@.skip(i as int))) == spec_components(
                s@,
            ),
        decreases n - i,
    {
        if s.get_char(i) == '/' {
            proof {
                lemma_split_after_sep(s@, i as int);
            }
            i = i + 1;
        } else {
            let mut j: usize = i + 1;
            while j < n && s.get_char(j) != '/'
                invariant
                    i < j <= n,
                    n == s@.len(),
                    forall|k: int| i <= k < j ==> !is_sep(#[trigger] s@[k]),
                decreases n - j,
            {
                j = j + 1;
            }
            let seg: &str = s.substring_char(i, j);
            let ghost segv = s@.subrange(i as int, j as int);
            proof {
                lemma_split_head_segment(s@, i as int, j as int);
            }
            let seg_n = seg.unicode_len();
            let comp: PathComponent = if seg_n == 1 && seg.get_char(0) == '.' {
                proof {
                    assert(segv =~= seq!['.']);
                }
                PathComponent::CurRef
            } else if seg_n == 2 && seg.get_char(0) == '.' && seg.get_char(1) == '.' {
                proof {
                    assert(segv =~= seq!['.', '.']);
                }
                PathComponent::ParentRef
            } else {
                proof {
                    assert(segv != seq!['.'] && segv != seq!['.', '.']);
                }
                PathComponent::Named(seg.to_owned())
            };
            out.push(comp);
            proof {
                assert(classify_all(split_segments(s@.skip(i as int))) =~= seq![classify(segv)]
                    + classify_all(split_segments(s@.skip(j as int))));
                assert(out.deep_view() + classify_all(split_segments(s@.skip(j as int)))
                    =~= spec_components(s@));
            }
            i = j;
        }
    }
    proof {
        assert(s@.skip(n as int) =~= Seq::<char>::empty());
        assert(out.deep_view() =~= spec_components(s@));
    }
    out
}

/// Split a canonical absolute path string into its named segments.
pub fn split_canonical(s: &str) -> (r: Vec<String>)
    requires
        is_canonical_text(s@),
    ensures
        r.deep_view() == split_segments(s@),
        wf_segments(r.deep_view()),
{
    let n: usize = s.unicode_len();
    let mut out: Vec<String> = Vec::new();
    let mut i: usize = 0;
    proof {
        assert(s@.skip(0) =~= s@);
    }
    while i < n
        invariant
            i <= n,
            n == s@.len(),
            is_canonical_text(s@),
            out.deep_view() + split_segments(s@.skip(i as int)) == split_segments(s@),
        decreases n - i,
    {
        if s.get_char(i) == '/' {
            proof {
                lemma_split_after_sep(s@, i as int);
            }
            i = i + 1;
        } else {
            let mut j: usize = i + 1;
            while j < n && s.get_char(j) != '/'
                invariant
                    i < j <= n,
                    n == s@.len(),
                    forall|k: int| i <= k < j ==> !is_sep(#[trigger] s@[k]),
                decreases n - j,
            {
                j = j + 1;
            }
            let seg: &str = s.substring_char(i, j);
            proof {
                lemma_split_head_segment(s@, i as int, j as int);
            }
            out.push(seg.to_owned());
            proof {
                assert(out.deep_view() + split_segments(s@.skip(j as int)) =~= split_segments(s@));
            }
            i = j;
        }
    }
    proof {
        assert(s@.skip(n as int) =~= Seq::<char>::empty());
        assert(out.deep_view() =~= split_segments(s@));
        lemma_split_segments_parts(s@);
        assert forall|k: int| 0 <= k < out.deep_view().len() implies wf_segment(
            #[trigger] out.deep_view()[k],
        ) by {
            assert(out.deep_view()[k] == split_segments(s@)[k]);
            assert(classify(split_segments(s@)[k]) matches GhostComponent::Named(_));
        }
    }
    out
}

/// Render a canonical segment sequence back into path text: `/` alone for the
/// filesystem root, else `/seg` for each segment in turn.
pub fn render_path(segs: &Vec<String>) -> (r: String)
    ensures
        r@ == spec_render(segs.deep_view()),
{
    if segs.len() == 0 {
        let r = "/".to_owned();
        proof {
            reveal_strlit("/");
            assert(r@ =~= seq!['/']);
        }
        return r;
    }
    let mut out = String::new();
    let mut i: usize = 0;
    while i < segs.len()
        invariant
            i <= segs.len(),
            out@ == spec_render_parts(segs.deep_view().take(i as int)),
        decreases segs.len() - i,
    {
        out.append("/");
        out.append(segs[i].as_str());
        proof {
            reveal_strlit("/");
            lemma_render_parts_push(segs.deep_view().take(i as int), segs.deep_view()[i as int]);
            assert(segs.deep_view().take(i as int).push(segs.deep_view()[i as int])
                =~= segs.deep_view().take(i as int + 1));
            assert(out@ =~= spec_render_parts(segs.deep_view().take(i as int + 1)));
        }
        i = i + 1;
    }
    proof {
        assert(segs.deep_view().take(segs.len() as int) =~= segs.deep_view());
    }
    out
}

/// Component-wise prefix test between two canonical segment sequences.
pub fn is_prefix_segs(pre: &Vec<String>, s: &Vec<String>) -> (r: bool)
    ensures
        r == is_prefix_of(pre.deep_view(), s.deep_view()),
{
    if pre.len() > s.len() {
        proof {
            assert(!is_prefix_of(pre.deep_view(), s.deep_view()));
        }
        return false;
    }
    let mut i: usize = 0;
    while i < pre.len()
        invariant
            i <= pre.len() <= s.len(),
            pre.len() == pre.deep_view().len(),
            s.len() == s.deep_view().len(),
            forall|k: int| 0 <= k < i ==> s.deep_view()[k] == pre.deep_view()[k],
        decreases pre.len() - i,
    {
        if !(pre[i] == s[i]) {
            proof {
                assert(s.deep_view()[i as int] != pre.deep_view()[i as int]);
                assert(!is_prefix_of(pre.deep_view(), s.deep_view())) by {
                    if is_prefix_of(pre.deep_view(), s.deep_view()) {
                        assert(s.deep_view().take(pre.deep_view().len() as int)[i as int]
                            == pre.deep_view()[i as int]);
                    }
                }
            }
            return false;
        }
        i = i + 1;
    }
    proof {
        assert(s.deep_view().take(pre.deep_view().len() as int) =~= pre.deep_view());
    }
    true
}

} // verus!
