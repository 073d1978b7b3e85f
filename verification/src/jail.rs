//! The sandbox itself: a canonical jail root, and resolution of untrusted
//! paths against it.

use vstd::prelude::*;

use crate::error::JailError;
use crate::path_model::{
    GhostComponent, PathComponent, is_absolute, is_canonical_text, is_prefix_of, is_prefix_segs,
    parse_components, render_path, spec_components, spec_render, split_canonical, split_segments,
    wf_segments,
};
use crate::resolve::{
    ProbeOutcome, StepRes, WalkOutcome, absorb_probe, first_significant,
    lemma_leading_parent_escapes, spec_walk,
};
use std::path::Path;

verus! {

/// Relies on std::path::Path::exists: whether the path can currently be
/// resolved to an existing filesystem entry.  The answer depends on the
/// filesystem's state, so nothing is promised of it.
#[verifier::external_body]
fn fs_exists(path: &str) -> bool {
    Path::new(path).exists()
}

/// Relies on std::path::Path::canonicalize: on success the result is the
/// canonical, absolute form of the path, with all `.` and `..` components
/// normalized away and all symbolic links resolved — hence an absolute path
/// none of whose segments is `.` or `..`.  Which path comes back depends on
/// the filesystem's state, so no more is promised.  A failure carries the
/// underlying error's message.
#[verifier::external_body]
fn fs_canonicalize(path: &str) -> (r: Result<String, String>)
    ensures
        r matches Ok(c) ==> is_canonical_text(c@),
{
    match Path::new(path).canonicalize() {
        Ok(p) => Ok(p.to_string_lossy().into_owned()),
        Err(e) => Err(format!("{}", e)),
    }
}

/// Relies on std::path::Path::is_dir: whether the path currently resolves to
/// a directory.  The answer depends on the filesystem's state, so nothing is
/// promised of it.
#[verifier::external_body]
fn fs_is_dir(path: &str) -> bool {
    Path::new(path).is_dir()
}

/// A filesystem sandbox that restricts paths to a root directory.
///
/// Paths are Unix-style: `/` separates segments and a leading `/` marks an
/// absolute path.
#[derive(Debug)]
pub struct Jail {
    root_segs: Vec<String>,
    root_str: String,
}

impl Clone for Jail {
    /// The clone guards the same canonical root.
    fn clone(&self) -> (r: Self)
        ensures
            r.root_segments() == self.root_segments(),
            r.root_text() == self.root_text(),
    {
        proof {
            use_type_invariant(self);
        }
        Jail { root_segs: clone_segments(&self.root_segs), root_str: self.root_str.clone() }
    }
}

/// Whether `r` is the result the walk outcome `o` prescribes, for a jail
/// whose root renders as `root_text`.
pub open spec fn outcome_matches(
    r: Result<String, JailError>,
    o: WalkOutcome,
    root_text: Seq<char>,
) -> bool {
    match o {
        WalkOutcome::Done(d) => r matches Ok(p) && p@ == spec_render(d),
        WalkOutcome::Escaped => r matches Err(e) && (e matches JailError::EscapedRoot {
            root,
            ..
        } && root@ == root_text),
        WalkOutcome::BadComponent => r matches Err(e) && e matches JailError::InvalidPath(_),
        WalkOutcome::Faulted(m) => r matches Err(e) && (e matches JailError::Io(msg) && msg@ == m),
    }
}

/// Whether `r` is the result the containment check prescribes for probe
/// answer `ans`, on input text `input`.
pub open spec fn check_matches(
    r: Result<String, JailError>,
    root_segs: Seq<Seq<char>>,
    root_text: Seq<char>,
    input: Seq<char>,
    ans: ProbeOutcome,
) -> bool {
    match ans {
        ProbeOutcome::Missing => false,
        ProbeOutcome::Resolved(c) => if is_prefix_of(root_segs, c) {
            r matches Ok(p) && p@ == spec_render(c)
        } else {
            r matches Err(e) && (e matches JailError::EscapedRoot { attempted, root }
                && attempted@ == input && root@ == root_text)
        },
        ProbeOutcome::Failed(m) => r matches Err(e) && (e matches JailError::Io(msg) && msg@ == m),
    }
}

impl Jail {
    /// The jail root's canonical segments never hold a separator, a `.` or a
    /// `..`, and the stored text is their rendering.
    #[verifier::type_invariant]
    spec fn inv(&self) -> bool {
        &&& wf_segments(self.root_segs.deep_view())
        &&& self.root_str@ == spec_render(self.root_segs.deep_view())
    }

    /// The canonical root, as its sequence of segments.
    pub closed spec fn root_segments(&self) -> Seq<Seq<char>> {
        self.root_segs.deep_view()
    }

    /// The canonical root, as path text.
    pub closed spec fn root_text(&self) -> Seq<char> {
        self.root_str@
    }

    /// Create a jail rooted at the given directory.  The root is
    /// canonicalized immediately; a path that cannot be resolved, or that
    /// does not name a directory, is an I/O failure.
    pub fn new(root: &str) -> (r: Result<Jail, JailError>)
        ensures
            r matches Err(e) ==> e matches JailError::Io(_),
            r matches Ok(j) ==> j.root_text() == spec_render(j.root_segments()) && wf_segments(
                j.root_segments(),
            ),
            // the root's segments come from some canonical text the filesystem gave
            r matches Ok(j) ==> (exists|c: Seq<char>|
                #[trigger] is_canonical_text(c) && j.root_segments() == split_segments(c)),
    {
        match fs_canonicalize(root) {
            Err(m) => Err(JailError::Io(m)),
            Ok(c) => {
                if !fs_is_dir(c.as_str()) {
                    Err(JailError::Io("Root must be a directory".to_owned()))
                } else {
                    let segs = split_canonical(c.as_str());
                    let text = render_path(&segs);
                    proof {
                        assert(is_canonical_text(c@) && segs.deep_view() == split_segments(c@));
                    }
                    Ok(Jail { root_segs: segs, root_str: text })
                }
            },
        }
    }

    /// Returns the canonicalized root path.
    pub fn root(&self) -> (r: &str)
        ensures
            r@ == self.root_text(),
            r@ == spec_render(self.root_segments()),
    {
        proof {
            use_type_invariant(self);
        }
        self.root_str.as_str()
    }

    /// Canonicalize `candidate` and check containment: the single trust
    /// boundary.  The ghost result reports what the filesystem answered.
    fn verify_inside(&self, candidate: &String) -> (res: (
        Result<Vec<String>, JailError>,
        Ghost<ProbeOutcome>,
    ))
        ensures
            ({
                let (r, ans) = res;
                match ans@ {
                    ProbeOutcome::Missing => false,
                    ProbeOutcome::Resolved(c) => if is_prefix_of(self.root_segments(), c) {
                        r matches Ok(v) && v.deep_view() == c
                    } else {
                        r matches Err(e) && (e matches JailError::EscapedRoot { attempted, root }
                            && attempted@ == candidate@ && root@ == self.root_text())
                    },
                    ProbeOutcome::Failed(m) => r matches Err(e) && (e matches JailError::Io(msg)
                        && msg@ == m),
                }
            }),
    {
        proof {
            use_type_invariant(self);
        }
        match fs_canonicalize(candidate.as_str()) {
            Err(m) => {
                let ghost a = ProbeOutcome::Failed(m@);
                (Err(JailError::Io(m)), Ghost(a))
            },
            Ok(c) => {
                let segs = split_canonical(c.as_str());
                let ghost a = ProbeOutcome::Resolved(segs.deep_view());
                if is_prefix_segs(&self.root_segs, &segs) {
                    (Ok(segs), Ghost(a))
                } else {
                    (
                        Err(
                            JailError::EscapedRoot {
                                attempted: candidate.clone(),
                                root: self.root_str.clone(),
                            },
                        ),
                        Ghost(a),
                    )
                }
            },
        }
    }

    /// Safely join a relative path to the jail root.
    ///
    /// Resolves `.` and `..` components, follows symlinks through the
    /// filesystem's canonicalization, and verifies containment after every
    /// step that can change which entry is referenced.  Works even if the
    /// final path does not exist yet.
    pub fn join(&self, relative: &str) -> (r: Result<String, JailError>)
        ensures
            // invalid-input exactly on absolute inputs, decided from the text alone
            (r matches Err(e) && e matches JailError::InvalidPath(_)) <==> is_absolute(relative@),
            // whatever the filesystem answered, success stays inside the root
            r matches Ok(p) ==> (exists|segs: Seq<Seq<char>>|
                p@ == spec_render(segs) && #[trigger] is_prefix_of(self.root_segments(), segs)),
            // the result is the walk's outcome for the answers the filesystem gave
            !is_absolute(relative@) ==> (exists|answers: Seq<ProbeOutcome>|
                outcome_matches(
                    r,
                    #[trigger] spec_walk(
                        self.root_segments(),
                        self.root_segments(),
                        spec_components(relative@),
                        answers,
                    ),
                    self.root_text(),
                )),
            // a parent-reference before any named segment escapes, unconditionally
            self.root_segments().len() > 0 && first_significant(spec_components(relative@))
                == Some(GhostComponent::ParentRef) ==> (r matches Err(e)
                && e matches JailError::EscapedRoot { .. }),
            // a path of current-references alone resolves to the root, with no probe
            !is_absolute(relative@) && first_significant(spec_components(relative@)) is None ==> (
            r matches Ok(p) && p@ == self.root_text()),
            // an escape failure always reports this jail's root
            match r {
                Err(JailError::EscapedRoot { root: rt, .. }) => rt@ == self.root_text(),
                _ => true,
            },
    {
        proof {
            use_type_invariant(self);
        }
        let n: usize = relative.unicode_len();
        if n > 0 && relative.get_char(0) == '/' {
            proof {
                assert(spec_components(relative@)[0] == GhostComponent::RootMarker);
            }
            return Err(JailError::InvalidPath("absolute paths not allowed".to_owned()));
        }
        let comps = parse_components(relative);
        let (r, answers) = self.walk_components(&comps, relative);
        proof {
            if self.root_segments().len() > 0 && first_significant(spec_components(relative@))
                == Some(GhostComponent::ParentRef) {
                lemma_leading_parent_escapes(
                    self.root_segments(),
                    spec_components(relative@),
                    answers@,
                );
            }
            if first_significant(spec_components(relative@)) is None {
                crate::resolve::lemma_all_cur_done(
                    self.root_segments(),
                    self.root_segments(),
                    spec_components(relative@),
                    answers@,
                );
            }
        }
        r
    }

    /// The resolution walk proper: one pass over the components, probing the
    /// filesystem after every named segment and after every parent-reference
    /// that stays inside the root.
    fn walk_components(&self, comps: &Vec<PathComponent>, relative: &str) -> (res: (
        Result<String, JailError>,
        Ghost<Seq<ProbeOutcome>>,
    ))
        requires
            comps.deep_view() == spec_components(relative@),
            !is_absolute(relative@),
        ensures
            ({
                let (r, answers) = res;
                &&& outcome_matches(
                    r,
                    spec_walk(
                        self.root_segments(),
                        self.root_segments(),
                        spec_components(relative@),
                        answers@,
                    ),
                    self.root_text(),
                )
                &&& r matches Ok(p) ==> (exists|segs: Seq<Seq<char>>|
                    p@ == spec_render(segs) && #[trigger] is_prefix_of(
                        self.root_segments(),
                        segs,
                    ))
                &&& r matches Err(e) ==> !(e matches JailError::InvalidPath(_))
                &&& match r {
                    Err(JailError::EscapedRoot { root: rt, .. }) => rt@ == self.root_text(),
                    _ => true,
                }
            }),
    {
        proof {
            use_type_invariant(self);
        }
        let ghost rootv = self.root_segments();
        let ghost compsv = spec_components(relative@);
        proof {
            assert forall|i: int| 0 <= i < compsv.len() implies !((#[trigger] compsv[i])
                is RootMarker) by {
                assert(compsv[i] == crate::path_model::classify(split_segments(relative@)[i]));
            }
        }
        let mut acc: Vec<String> = clone_segments(&self.root_segs);
        let ghost mut answers: Seq<ProbeOutcome> = Seq::empty();
        let mut idx: usize = 0;
        proof {
            assert(is_prefix_of(rootv, acc.deep_view())) by {
                assert(acc.deep_view().take(rootv.len() as int) =~= rootv);
            }
            assert forall|rest: Seq<ProbeOutcome>|
                #[trigger] spec_walk(rootv, rootv, compsv, answers + rest) == spec_walk(
                    rootv,
                    acc.deep_view(),
                    compsv.skip(idx as int),
                    rest,
                ) by {
                assert(answers + rest =~= rest);
                assert(compsv.skip(0) =~= compsv);
            }
        }
        while idx < comps.len()
            invariant
                idx <= comps.len(),
                comps.deep_view() == compsv,
                compsv == spec_components(relative@),
                rootv == self.root_segments(),
                self.inv(),
                forall|i: int| 0 <= i < compsv.len() ==> !((#[trigger] compsv[i]) is RootMarker),
                is_prefix_of(rootv, acc.deep_view()),
                forall|rest: Seq<ProbeOutcome>|
                    #[trigger] spec_walk(rootv, rootv, compsv, answers + rest) == spec_walk(
                        rootv,
                        acc.deep_view(),
                        compsv.skip(idx as int),
                        rest,
                    ),
            decreases comps.len() - idx,
        {
            let ghost acc0 = acc.deep_view();
            match &comps[idx] {
                PathComponent::CurRef => {
                    proof {
                        assert forall|rest: Seq<ProbeOutcome>|
                            #[trigger] spec_walk(rootv, rootv, compsv, answers + rest) == spec_walk(
                                rootv,
                                acc0,
                                compsv.skip(idx as int + 1),
                                rest,
                            ) by {
                            assert(compsv.skip(idx as int)[0] == compsv[idx as int]);
                            assert(compsv.skip(idx as int).skip(1) =~= compsv.skip(idx as int + 1));
                        }
                    }
                },
                PathComponent::RootMarker => {
                    // defensive: a marker inside a relative input's components;
                    // the parser yields one only for absolute inputs, which were
                    // already rejected, so this arm is provably unreachable
                    proof {
                        assert(compsv[idx as int] is RootMarker);
                        assert(false);
                    }
                    return (
                        Err(JailError::InvalidPath("absolute components not allowed".to_owned())),
                        Ghost(answers),
                    );
                },
                PathComponent::Named(name) => {
                    acc.push(name.clone());
                    let ghost cand = acc.deep_view();
                    proof {
                        assert(cand == acc0.push(name@));
                        assert(is_prefix_of(rootv, cand)) by {
                            assert(cand.take(rootv.len() as int) =~= acc0.take(rootv.len() as int));
                        }
                    }
                    let candidate = render_path(&acc);
                    if fs_exists(candidate.as_str()) {
                        let (vr, vans) = self.verify_inside(&candidate);
                        proof {
                            self.lemma_step_factors(
                                acc0,
                                compsv,
                                idx as int,
                                answers,
                                vans@,
                                cand,
                            );
                            answers = answers.push(vans@);
                        }
                        match vr {
                            Ok(v) => {
                                acc = v;
                            },
                            Err(e) => {
                                proof {
                                    assert(answers + Seq::<ProbeOutcome>::empty() =~= answers);
                                }
                                return (Err(e), Ghost(answers));
                            },
                        }
                    } else {
                        proof {
                            self.lemma_step_factors(
                                acc0,
                                compsv,
                                idx as int,
                                answers,
                                ProbeOutcome::Missing,
                                cand,
                            );
                            answers = answers.push(ProbeOutcome::Missing);
                        }
                    }
                },
                PathComponent::ParentRef => {
                    if acc.len() > self.root_segs.len() {
                        let _last = acc.pop();
                        let ghost cand = acc.deep_view();
                        proof {
                            assert(cand == acc0.drop_last());
                            assert(is_prefix_of(rootv, cand)) by {
                                assert(cand.take(rootv.len() as int) =~= acc0.take(
                                    rootv.len() as int,
                                ));
                            }
                        }
                        let candidate = render_path(&acc);
                        if fs_exists(candidate.as_str()) {
                            let (vr, vans) = self.verify_inside(&candidate);
                            proof {
                                self.lemma_step_factors(
                                    acc0,
                                    compsv,
                                    idx as int,
                                    answers,
                                    vans@,
                                    cand,
                                );
                                answers = answers.push(vans@);
                            }
                            match vr {
                                Ok(v) => {
                                    acc = v;
                                },
                                Err(e) => {
                                    proof {
                                        assert(answers + Seq::<ProbeOutcome>::empty() =~= answers);
                                    }
                                    return (Err(e), Ghost(answers));
                                },
                            }
                        } else {
                            proof {
                                self.lemma_step_factors(
                                    acc0,
                                    compsv,
                                    idx as int,
                                    answers,
                                    ProbeOutcome::Missing,
                                    cand,
                                );
                                answers = answers.push(ProbeOutcome::Missing);
                            }
                        }
                    } else {
                        // popping would leave the root: reject in O(1), with no probe
                        proof {
                            assert(acc0.len() == rootv.len());
                            assert(acc0 =~= rootv);
                            let popped = if acc0.len() == 0 {
                                acc0
                            } else {
                                acc0.drop_last()
                            };
                            if rootv.len() == 0 {
                                assert(is_prefix_of(rootv, popped));
                            }
                            assert(rootv.len() > 0 ==> !is_prefix_of(rootv, popped));
                        }
                        if self.root_segs.len() == 0 {
                            // the jail is the filesystem root: `..` stays in place
                            let candidate = render_path(&acc);
                            if fs_exists(candidate.as_str()) {
                                let (vr, vans) = self.verify_inside(&candidate);
                                proof {
                                    self.lemma_step_factors(
                                        acc0,
                                        compsv,
                                        idx as int,
                                        answers,
                                        vans@,
                                        acc0,
                                    );
                                    answers = answers.push(vans@);
                                }
                                match vr {
                                    Ok(v) => {
                                        acc = v;
                                    },
                                    Err(e) => {
                                        proof {
                                            assert(answers + Seq::<ProbeOutcome>::empty()
                                                =~= answers);
                                        }
                                        return (Err(e), Ghost(answers));
                                    },
                                }
                            } else {
                                proof {
                                    self.lemma_step_factors(
                                        acc0,
                                        compsv,
                                        idx as int,
                                        answers,
                                        ProbeOutcome::Missing,
                                        acc0,
                                    );
                                    answers = answers.push(ProbeOutcome::Missing);
                                }
                            }
                        } else {
                            proof {
                                assert(spec_walk(
                                    rootv,
                                    acc0,
                                    compsv.skip(idx as int),
                                    Seq::empty(),
                                ) == WalkOutcome::Escaped) by {
                                    assert(compsv.skip(idx as int)[0] == compsv[idx as int]);
                                }
                                assert(answers + Seq::<ProbeOutcome>::empty() =~= answers);
                            }
                            return (
                                Err(
                                    JailError::EscapedRoot {
                                        attempted: relative.to_owned(),
                                        root: self.root_str.clone(),
                                    },
                                ),
                                Ghost(answers),
                            );
                        }
                    }
                },
            }
            idx = idx + 1;
        }
        let out = render_path(&acc);
        proof {
            assert(compsv.skip(idx as int) =~= Seq::<GhostComponent>::empty());
            assert(answers + Seq::<ProbeOutcome>::empty() =~= answers);
            assert(spec_walk(rootv, rootv, compsv, answers) == WalkOutcome::Done(acc.deep_view()));
            assert(out@ == spec_render(acc.deep_view()) && is_prefix_of(rootv, acc.deep_view()));
        }
        (Ok(out), Ghost(answers))
    }

    /// One walk step factors: consuming component `idx` with probe answer
    /// `ans` advances the factored walk by one component.
    proof fn lemma_step_factors(
        &self,
        acc0: Seq<Seq<char>>,
        compsv: Seq<GhostComponent>,
        idx: int,
        answers: Seq<ProbeOutcome>,
        ans: ProbeOutcome,
        cand: Seq<Seq<char>>,
    )
        requires
            0 <= idx < compsv.len(),
            match compsv[idx] {
                GhostComponent::Named(name) => cand == acc0.push(name),
                GhostComponent::ParentRef => {
                    let popped = if acc0.len() == 0 {
                        acc0
                    } else {
                        acc0.drop_last()
                    };
                    cand == popped && is_prefix_of(self.root_segments(), popped)
                },
                _ => false,
            },
            forall|rest: Seq<ProbeOutcome>|
                #[trigger] spec_walk(
                    self.root_segments(),
                    self.root_segments(),
                    compsv,
                    answers + rest,
                ) == spec_walk(self.root_segments(), acc0, compsv.skip(idx), rest),
        ensures
            forall|rest: Seq<ProbeOutcome>|
                #[trigger] spec_walk(
                    self.root_segments(),
                    self.root_segments(),
                    compsv,
                    answers.push(ans) + rest,
                ) == (match absorb_probe(self.root_segments(), cand, ans) {
                    StepRes::Go(a2) => spec_walk(
                        self.root_segments(),
                        a2,
                        compsv.skip(idx + 1),
                        rest,
                    ),
                    StepRes::Halt(o) => o,
                }),
    {
        let rootv = self.root_segments();
        assert forall|rest: Seq<ProbeOutcome>|
            #[trigger] spec_walk(rootv, rootv, compsv, answers.push(ans) + rest) == (
            match absorb_probe(rootv, cand, ans) {
                StepRes::Go(a2) => spec_walk(rootv, a2, compsv.skip(idx + 1), rest),
                StepRes::Halt(o) => o,
            }) by {
            let one = seq![ans] + rest;
            assert(answers.push(ans) + rest =~= answers + one);
            assert(spec_walk(rootv, rootv, compsv, answers + one) == spec_walk(
                rootv,
                acc0,
                compsv.skip(idx),
                one,
            ));
            assert(compsv.skip(idx)[0] == compsv[idx]);
            assert(one[0] == ans);
            assert(one.skip(1) =~= rest);
            assert(compsv.skip(idx).skip(1) =~= compsv.skip(idx + 1));
        }
    }

    /// Verify an absolute path is inside the jail: canonicalize it, then
    /// check containment.  Returns the canonical path if it is inside.  The
    /// whole path must exist; a relative input is rejected with an
    /// invalid-input error before any filesystem access.
    pub fn contains(&self, absolute: &str) -> (r: Result<String, JailError>)
        ensures
            // invalid-input exactly on relative inputs, decided from the text alone
            (r matches Err(e) && e matches JailError::InvalidPath(_)) <==> !is_absolute(absolute@),
            // whatever the filesystem answered, success stays inside the root
            r matches Ok(p) ==> (exists|segs: Seq<Seq<char>>|
                p@ == spec_render(segs) && #[trigger] is_prefix_of(self.root_segments(), segs)),
            // the result is what the filesystem's one answer prescribes
            is_absolute(absolute@) ==> (exists|ans: ProbeOutcome| #[trigger] check_matches(
                r,
                self.root_segments(),
                self.root_text(),
                absolute@,
                ans,
            )),
            // an escape failure reports the attempted path and this jail's root
            match r {
                Err(JailError::EscapedRoot { attempted, root }) => attempted@ == absolute@ && root@
                    == self.root_text(),
                _ => true,
            },
    {
        proof {
            use_type_invariant(self);
        }
        let n: usize = absolute.unicode_len();
        if n == 0 || absolute.get_char(0) != '/' {
            return Err(JailError::InvalidPath("path must be absolute".to_owned()));
        }
        let owned: String = absolute.to_owned();
        let (vr, vans) = self.verify_inside(&owned);
        match vr {
            Ok(segs) => {
                let p = render_path(&segs);
                proof {
                    assert(check_matches(
                        Ok::<String, JailError>(p),
                        self.root_segments(),
                        self.root_text(),
                        absolute@,
                        vans@,
                    ));
                }
                Ok(p)
            },
            Err(e) => {
                proof {
                    assert(check_matches(
                        Err::<String, JailError>(e),
                        self.root_segments(),
                        self.root_text(),
                        absolute@,
                        vans@,
                    ));
                }
                Err(e)
            },
        }
    }
}

/// Copy a segment vector (`String` segments are cloned one by one).
fn clone_segments(v: &Vec<String>) -> (r: Vec<String>)
    ensures
        r.deep_view() == v.deep_view(),
        r@ == v@,
{
    let mut out: Vec<String> = Vec::new();
    let mut i: usize = 0;
    while i < v.len()
        invariant
            i <= v.len(),
            out@ =~= v@.take(i as int),
        decreases v.len() - i,
    {
        out.push(v[i].clone());
        i = i + 1;
    }
    proof {
        assert(v@.take(v.len() as int) =~= v@);
        assert(out.deep_view() =~= v.deep_view());
    }
    out
}

} // verus!
