//! The specification of the component-wise resolution walk.
//!
//! The walk consumes the components of a relative path in order, keeping an
//! accumulator of canonical segments seeded from the jail root.  Named
//! segments and parent-references probe the filesystem; the probe's answer is
//! outside this model's control, so the walk is specified as a function of
//! the sequence of answers the filesystem gave.  The resolver's contract then
//! states that its result is the walk's outcome for some answer sequence,
//! while the laws below hold for every answer sequence.

use vstd::prelude::*;

use crate::path_model::GhostComponent;
use crate::path_model::is_prefix_of;

verus! {

/// What the filesystem answered for one probed accumulator value.
pub enum ProbeOutcome {
    /// The probed path does not currently exist; the accumulator keeps its
    /// verbatim text.
    Missing,
    /// The probed path exists and canonicalized to these segments.
    Resolved(Seq<Seq<char>>),
    /// The probed path exists but canonicalization failed with this message.
    Failed(Seq<char>),
}

/// How the whole walk ended.
pub enum WalkOutcome {
    /// Every component was consumed; the accumulator's final segments.
    Done(Seq<Seq<char>>),
    /// Some step landed outside the root.
    Escaped,
    /// An absolute-path marker stood among the components.
    BadComponent,
    /// A filesystem probe failed with this message.
    Faulted(Seq<char>),
}

/// One probe step: how a probe answer transforms the accumulator, or halts
/// the walk.
pub enum StepRes {
    Go(Seq<Seq<char>>),
    Halt(WalkOutcome),
}

/// Absorb one probe answer into candidate accumulator `cand`: a missing path
/// is kept verbatim, a resolved one replaces the accumulator after the
/// containment check, a failed probe halts the walk.
pub open spec fn absorb_probe(root: Seq<Seq<char>>, cand: Seq<Seq<char>>, ans: ProbeOutcome) -> StepRes {
    match ans {
        ProbeOutcome::Missing => StepRes::Go(cand),
        ProbeOutcome::Resolved(c) => if is_prefix_of(root, c) {
            StepRes::Go(c)
        } else {
            StepRes::Halt(WalkOutcome::Escaped)
        },
        ProbeOutcome::Failed(m) => StepRes::Halt(WalkOutcome::Faulted(m)),
    }
}

/// The resolution walk over components `comps` from accumulator `acc`, with
/// the filesystem's answers given by `answers` (one per probing component, in
/// order).  An exhausted answer sequence is read as a probe fault.
pub open spec fn spec_walk(
    root: Seq<Seq<char>>,
    acc: Seq<Seq<char>>,
    comps: Seq<GhostComponent>,
    answers: Seq<ProbeOutcome>,
) -> WalkOutcome
    decreases comps.len(),
{
    if comps.len() == 0 {
        WalkOutcome::Done(acc)
    } else {
        match comps[0] {
            GhostComponent::CurRef => spec_walk(root, acc, comps.skip(1), answers),
            GhostComponent::RootMarker => WalkOutcome::BadComponent,
            GhostComponent::Named(name) => {
                if answers.len() == 0 {
                    WalkOutcome::Faulted(Seq::empty())
                } else {
                    match absorb_probe(root, acc.push(name), answers[0]) {
                        StepRes::Go(a2) => spec_walk(root, a2, comps.skip(1), answers.skip(1)),
                        StepRes::Halt(o) => o,
                    }
                }
            },
            GhostComponent::ParentRef => {
                let popped = if acc.len() == 0 {
                    acc
                } else {
                    acc.drop_last()
                };
                if !is_prefix_of(root, popped) {
                    WalkOutcome::Escaped
                } else if answers.len() == 0 {
                    WalkOutcome::Faulted(Seq::empty())
                } else {
                    match absorb_probe(root, popped, answers[0]) {
                        StepRes::Go(a2) => spec_walk(root, a2, comps.skip(1), answers.skip(1)),
                        StepRes::Halt(o) => o,
                    }
                }
            },
        }
    }
}

/// `cs` with every current-reference removed.
pub open spec fn strip_cur(cs: Seq<GhostComponent>) -> Seq<GhostComponent>
    decreases cs.len(),
{
    if cs.len() == 0 {
        Seq::empty()
    } else if cs[0] is CurRef {
        strip_cur(cs.skip(1))
    } else {
        seq![cs[0]] + strip_cur(cs.skip(1))
    }
}

/// The first component that is not a current-reference, if any.
pub open spec fn first_significant(cs: Seq<GhostComponent>) -> Option<GhostComponent>
    decreases cs.len(),
{
    if cs.len() == 0 {
        None
    } else if cs[0] is CurRef {
        first_significant(cs.skip(1))
    } else {
        Some(cs[0])
    }
}

/// How many components of `cs` probe the filesystem.
pub open spec fn probe_count(cs: Seq<GhostComponent>) -> int
    decreases cs.len(),
{
    if cs.len() == 0 {
        0
    } else if cs[0] is Named || cs[0] is ParentRef {
        1 + probe_count(cs.skip(1))
    } else {
        probe_count(cs.skip(1))
    }
}

/// An answer that keeps the walk inside the root: the path was missing, or it
/// resolved to a descendant of the root.
pub open spec fn answer_inside(root: Seq<Seq<char>>, ans: ProbeOutcome) -> bool {
    match ans {
        ProbeOutcome::Missing => true,
        ProbeOutcome::Resolved(c) => is_prefix_of(root, c),
        ProbeOutcome::Failed(_) => false,
    }
}

/// Law: current-reference components are transparent.  For every answer
/// sequence, the walk over `comps` and the walk over `comps` with all
/// current-references removed end the same way.
pub proof fn lemma_cur_refs_transparent(
    root: Seq<Seq<char>>,
    acc: Seq<Seq<char>>,
    comps: Seq<GhostComponent>,
    answers: Seq<ProbeOutcome>,
)
    ensures
        spec_walk(root, acc, comps, answers) == spec_walk(root, acc, strip_cur(comps), answers),
    decreases comps.len(),
{
    if comps.len() == 0 {
    } else if comps[0] is CurRef {
        lemma_cur_refs_transparent(root, acc, comps.skip(1), answers);
    } else {
        let stripped = seq![comps[0]] + strip_cur(comps.skip(1));
        assert(strip_cur(comps) == stripped);
        assert(stripped[0] == comps[0]);
        assert(stripped.skip(1) =~= strip_cur(comps.skip(1)));
        match comps[0] {
            GhostComponent::CurRef => {
            },
            GhostComponent::RootMarker => {
            },
            GhostComponent::Named(name) => {
                if answers.len() > 0 {
                    match absorb_probe(root, acc.push(name), answers[0]) {
                        StepRes::Go(a2) => {
                            lemma_cur_refs_transparent(root, a2, comps.skip(1), answers.skip(1));
                        },
                        StepRes::Halt(_) => {
                        },
                    }
                }
            },
            GhostComponent::ParentRef => {
                let popped = if acc.len() == 0 {
                    acc
                } else {
                    acc.drop_last()
                };
                if is_prefix_of(root, popped) && answers.len() > 0 {
                    match absorb_probe(root, popped, answers[0]) {
                        StepRes::Go(a2) => {
                            lemma_cur_refs_transparent(root, a2, comps.skip(1), answers.skip(1));
                        },
                        StepRes::Halt(_) => {
                        },
                    }
                }
            },
        }
    }
}

/// Law: a traversal-free path cannot escape.  If no component is a
/// parent-reference or an absolute marker, and every probed path was missing
/// or resolved inside the root, the walk succeeds and its result is a
/// descendant of the root.
pub proof fn lemma_walk_inside_succeeds(
    root: Seq<Seq<char>>,
    acc: Seq<Seq<char>>,
    comps: Seq<GhostComponent>,
    answers: Seq<ProbeOutcome>,
)
    requires
        is_prefix_of(root, acc),
        forall|i: int|
            0 <= i < comps.len() ==> ((#[trigger] comps[i]) is CurRef || comps[i] is Named),
        answers.len() >= probe_count(comps),
        forall|i: int| 0 <= i < answers.len() ==> answer_inside(root, #[trigger] answers[i]),
    ensures
        spec_walk(root, acc, comps, answers) matches WalkOutcome::Done(d) && is_prefix_of(root, d),
    decreases comps.len(),
{
    if comps.len() == 0 {
    } else if comps[0] is CurRef {
        lemma_walk_inside_succeeds(root, acc, comps.skip(1), answers);
    } else {
        let name = comps[0]->Named_0;
        lemma_probe_count_nonneg(comps.skip(1));
        assert(answers.len() > 0);
        let cand = acc.push(name);
        assert(is_prefix_of(root, cand)) by {
            assert(cand.take(root.len() as int) =~= acc.take(root.len() as int));
        }
        match absorb_probe(root, cand, answers[0]) {
            StepRes::Go(a2) => {
                assert(is_prefix_of(root, a2));
                lemma_walk_inside_succeeds(root, a2, comps.skip(1), answers.skip(1));
            },
            StepRes::Halt(_) => {
                assert(answer_inside(root, answers[0]));
                assert(false);
            },
        }
    }
}

/// `probe_count` is never negative.
proof fn lemma_probe_count_nonneg(cs: Seq<GhostComponent>)
    ensures
        probe_count(cs) >= 0,
    decreases cs.len(),
{
    if cs.len() > 0 {
        lemma_probe_count_nonneg(cs.skip(1));
    }
}

/// Law: a path of current-references alone resolves to the accumulator it
/// started from, whatever the filesystem would have answered, and before any
/// probe is made.
pub proof fn lemma_all_cur_done(
    root: Seq<Seq<char>>,
    acc: Seq<Seq<char>>,
    comps: Seq<GhostComponent>,
    answers: Seq<ProbeOutcome>,
)
    requires
        first_significant(comps) is None,
    ensures
        spec_walk(root, acc, comps, answers) == WalkOutcome::Done(acc),
    decreases comps.len(),
{
    if comps.len() > 0 {
        lemma_all_cur_done(root, acc, comps.skip(1), answers);
    }
}

/// Law: a parent-reference before any named segment escapes a nonempty root,
/// whatever the filesystem would have answered, and before any probe is made.
pub proof fn lemma_leading_parent_escapes(
    root: Seq<Seq<char>>,
    comps: Seq<GhostComponent>,
    answers: Seq<ProbeOutcome>,
)
    requires
        root.len() > 0,
        first_significant(comps) == Some(GhostComponent::ParentRef),
    ensures
        spec_walk(root, root, comps, answers) == WalkOutcome::Escaped,
    decreases comps.len(),
{
    if comps[0] is CurRef {
        lemma_leading_parent_escapes(root, comps.skip(1), answers);
    } else {
        assert(comps[0] is ParentRef);
        let popped = root.drop_last();
        assert(!is_prefix_of(root, popped));
    }
}

} // verus!
