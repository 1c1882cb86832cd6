//! What happens to a diagnostic because of the file that it is in.
//!
//! A project can quiet the diagnostics of code that it does not own. A pattern
//! matches every file whose path contains it. Diagnostics of a file that an
//! `ignore` pattern matches are dropped; those of a file that a `demote` pattern
//! matches are made no more severe than a floor.

use vstd::prelude::*;

use crate::ast::DiagSeverity;
use crate::model::{lemma_filter_step, lemma_views_push, views};
use crate::text::{contains, has_part, is_text, lowered, to_chars, to_lower, trim, trimmed};

verus! {

/// What to do with a diagnostic.
#[derive(Debug, Clone, Copy, PartialEq, Eq, Structural)]
pub enum DiagAction {
    /// Publish it as it is.
    Keep,
    /// Drop it.
    Drop,
    /// Make it no more severe than this.
    DemoteFloor(DiagSeverity),
}

/// The patterns of a project.
#[derive(Debug, Clone)]
pub struct DiagnosticPolicy {
    /// The patterns of the files whose diagnostics are demoted.
    pub demote_patterns: Vec<String>,
    /// The floor for those.
    pub demote_floor: DiagSeverity,
    /// The patterns of the files whose diagnostics are dropped.
    pub ignore_patterns: Vec<String>,
}

/// The patterns of a project.
pub struct PolicyView {
    pub demote_patterns: Seq<Seq<char>>,
    pub demote_floor: DiagSeverity,
    pub ignore_patterns: Seq<Seq<char>>,
}

impl View for DiagnosticPolicy {
    type V = PolicyView;

    open spec fn view(&self) -> PolicyView {
        PolicyView {
            demote_patterns: views(self.demote_patterns@),
            demote_floor: self.demote_floor,
            ignore_patterns: views(self.ignore_patterns@),
        }
    }
}

/// The severity with this name, in any case and with white space around it.
pub open spec fn severity_named(s: Seq<char>) -> Option<DiagSeverity> {
    let name = lowered(trim(s));
    if name == "error"@ {
        Some(DiagSeverity::Error)
    } else if name == "warning"@ || name == "warn"@ {
        Some(DiagSeverity::Warning)
    } else if name == "information"@ || name == "info"@ {
        Some(DiagSeverity::Information)
    } else if name == "hint"@ {
        Some(DiagSeverity::Hint)
    } else {
        None
    }
}

/// The severity with this name.
pub fn parse_severity(s: &str) -> (r: Option<DiagSeverity>)
    ensures
        r == severity_named(s@),
{
    let c = to_chars(s);
    let name = to_lower(trimmed(&c));
    if is_text(&name, "error") {
        Some(DiagSeverity::Error)
    } else if is_text(&name, "warning") || is_text(&name, "warn") {
        Some(DiagSeverity::Warning)
    } else if is_text(&name, "information") || is_text(&name, "info") {
        Some(DiagSeverity::Information)
    } else if is_text(&name, "hint") {
        Some(DiagSeverity::Hint)
    } else {
        None
    }
}

/// The patterns that are not empty.
pub open spec fn patterns(v: Seq<Seq<char>>) -> Seq<Seq<char>> {
    v.filter(|p: Seq<char>| p.len() > 0)
}

/// The policy that a configuration asks for. A floor that is no severity is
/// taken for a hint.
pub open spec fn configured_policy(
    demote_paths: Seq<Seq<char>>,
    demote_severity: Seq<char>,
    ignore_paths: Seq<Seq<char>>,
) -> PolicyView {
    PolicyView {
        demote_patterns: patterns(demote_paths),
        demote_floor: match severity_named(demote_severity) {
            Some(s) => s,
            None => DiagSeverity::Hint,
        },
        ignore_patterns: patterns(ignore_paths),
    }
}

/// Whether one of the patterns occurs in the path.
pub open spec fn matched(patterns: Seq<Seq<char>>, path: Seq<char>) -> bool {
    exists|i: int| 0 <= i < patterns.len() && contains(path, #[trigger] patterns[i])
}

/// What to do with a diagnostic of the file `path`. To drop it wins over
/// demoting it.
pub open spec fn action(policy: PolicyView, path: Seq<char>) -> DiagAction {
    if matched(policy.ignore_patterns, path) {
        DiagAction::Drop
    } else if matched(policy.demote_patterns, path) {
        DiagAction::DemoteFloor(policy.demote_floor)
    } else {
        DiagAction::Keep
    }
}

/// The patterns that are not empty.
fn keep_patterns(v: Vec<String>) -> (r: Vec<String>)
    ensures
        views(r@) == patterns(views(v@)),
{
    let ghost all = views(v@);
    let ghost p = |p: Seq<char>| p.len() > 0;
    let mut out: Vec<String> = Vec::new();
    let mut i: usize = 0;
    proof {
        reveal(Seq::filter);
        assert(all.take(0) =~= Seq::empty());
        assert(views(out@) =~= all.take(0).filter(p));
    }
    while i < v.len()
        invariant
            all == views(v@),
            p == (|p: Seq<char>| p.len() > 0),
            i <= v@.len(),
            views(out@) == all.take(i as int).filter(p),
        decreases v@.len() - i,
    {
        assert(all[i as int] == v@[i as int]@);
        proof {
            lemma_filter_step(all, p, i as int);
        }
        if to_chars(v[i].as_str()).len() > 0 {
            let pattern = v[i].clone();
            proof {
                lemma_views_push(out@, pattern);
            }
            out.push(pattern);
        }
        i = i + 1;
    }
    assert(all.take(all.len() as int) =~= all);
    out
}

/// Whether one of the patterns occurs in the path.
fn any_matches(patterns: &Vec<String>, path: &[char]) -> (r: bool)
    ensures
        r == matched(views(patterns@), path@),
{
    let ghost all = views(patterns@);
    let mut i: usize = 0;
    while i < patterns.len()
        invariant
            all == views(patterns@),
            i <= patterns@.len(),
            forall|k: int| 0 <= k < i ==> !contains(path@, #[trigger] all[k]),
        decreases patterns@.len() - i,
    {
        assert(all[i as int] == patterns@[i as int]@);
        if has_part(path, patterns[i].as_str()) {
            return true;
        }
        i = i + 1;
    }
    false
}

impl Default for DiagnosticPolicy {
    /// Every diagnostic is published as it is.
    fn default() -> (r: Self)
        ensures
            r@.demote_patterns == Seq::<Seq<char>>::empty(),
            r@.demote_floor == DiagSeverity::Hint,
            r@.ignore_patterns == Seq::<Seq<char>>::empty(),
    {
        let r = DiagnosticPolicy {
            demote_patterns: Vec::new(),
            demote_floor: DiagSeverity::Hint,
            ignore_patterns: Vec::new(),
        };
        assert(views(r.demote_patterns@) =~= Seq::empty());
        assert(views(r.ignore_patterns@) =~= Seq::empty());
        r
    }
}

impl DiagnosticPolicy {
    /// The policy that a configuration asks for. Empty patterns are passed over.
    pub fn from_config(
        demote_paths: Vec<String>,
        demote_severity: &str,
        ignore_paths: Vec<String>,
    ) -> (r: Self)
        ensures
            r@ == configured_policy(views(demote_paths@), demote_severity@, views(ignore_paths@)),
    {
        let demote_floor = match parse_severity(demote_severity) {
            Some(s) => s,
            None => DiagSeverity::Hint,
        };
        DiagnosticPolicy {
            demote_patterns: keep_patterns(demote_paths),
            demote_floor,
            ignore_patterns: keep_patterns(ignore_paths),
        }
    }

    /// What to do with a diagnostic of the file `path`.
    pub fn action_for(&self, path: &str) -> (r: DiagAction)
        ensures
            r == action(self@, path@),
    {
        let c = to_chars(path);
        if any_matches(&self.ignore_patterns, &c) {
            return DiagAction::Drop;
        }
        if any_matches(&self.demote_patterns, &c) {
            return DiagAction::DemoteFloor(self.demote_floor);
        }
        DiagAction::Keep
    }
}

/// How severe a diagnostic is; lower is more severe.
pub open spec fn severity_rank(s: DiagSeverity) -> int {
    match s {
        DiagSeverity::Error => 0,
        DiagSeverity::Warning => 1,
        DiagSeverity::Information => 2,
        DiagSeverity::Hint => 3,
    }
}

/// How severe a diagnostic is; lower is more severe.
pub fn rank(s: DiagSeverity) -> (r: u8)
    ensures
        r == severity_rank(s),
{
    match s {
        DiagSeverity::Error => 0,
        DiagSeverity::Warning => 1,
        DiagSeverity::Information => 2,
        DiagSeverity::Hint => 3,
    }
}

/// The less severe of a severity and a floor.
pub open spec fn demoted(severity: DiagSeverity, floor: DiagSeverity) -> DiagSeverity {
    if severity_rank(severity) < severity_rank(floor) {
        floor
    } else {
        severity
    }
}

/// Makes a severity no more severe than the floor.
pub fn demoted_severity(severity: DiagSeverity, floor: DiagSeverity) -> (r: DiagSeverity)
    ensures
        r == demoted(severity, floor),
        severity_rank(r) >= severity_rank(severity),
        severity_rank(r) >= severity_rank(floor),
{
    if rank(severity) < rank(floor) {
        floor
    } else {
        severity
    }
}

/// Without patterns every diagnostic is kept, whatever its file.
pub proof fn lemma_no_patterns(policy: PolicyView, path: Seq<char>)
    requires
        policy.demote_patterns.len() == 0,
        policy.ignore_patterns.len() == 0,
    ensures
        action(policy, path) == DiagAction::Keep,
{
}

/// A diagnostic of a file that an `ignore` pattern occurs in is dropped, whatever
/// else matches the file.
pub proof fn lemma_drop_wins(policy: PolicyView, path: Seq<char>, i: int)
    requires
        0 <= i < policy.ignore_patterns.len(),
        contains(path, policy.ignore_patterns[i]),
    ensures
        action(policy, path) == DiagAction::Drop,
{
}

/// Demoting lowers a severity or leaves it, and demoting again changes nothing.
pub proof fn lemma_demoted(severity: DiagSeverity, floor: DiagSeverity)
    ensures
        severity_rank(demoted(severity, floor)) >= severity_rank(severity),
        severity_rank(demoted(severity, floor)) >= severity_rank(floor),
        demoted(demoted(severity, floor), floor) == demoted(severity, floor),
        severity_rank(severity) >= severity_rank(floor) ==> demoted(severity, floor) == severity,
{
}

/// What is done with a file's diagnostics: where a pattern to ignore occurs in its
/// path they are dropped, else where one to demote does they are demoted to the
/// floor, and else they are kept.
pub proof fn lemma_action(policy: PolicyView, path: Seq<char>)
    ensures
        action(policy, path) == DiagAction::Drop <==> exists|i: int|
            0 <= i < policy.ignore_patterns.len() && contains(
                path,
                #[trigger] policy.ignore_patterns[i],
            ),
        (forall|i: int|
            0 <= i < policy.ignore_patterns.len() ==> !contains(
                path,
                #[trigger] policy.ignore_patterns[i],
            )) && (exists|i: int|
            0 <= i < policy.demote_patterns.len() && contains(
                path,
                #[trigger] policy.demote_patterns[i],
            )) ==> action(policy, path) == DiagAction::DemoteFloor(policy.demote_floor),
        action(policy, path) == DiagAction::Keep <==> (forall|i: int|
            0 <= i < policy.ignore_patterns.len() ==> !contains(
                path,
                #[trigger] policy.ignore_patterns[i],
            )) && (forall|i: int|
            0 <= i < policy.demote_patterns.len() ==> !contains(
                path,
                #[trigger] policy.demote_patterns[i],
            )),
{
}

} // verus!
