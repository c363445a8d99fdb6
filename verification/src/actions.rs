//! The action graph: a configuration compiles into an ordered list of
//! idempotent filesystem operations that share one resource store.
//! The list can be executed, filtered down to the actions transitively
//! dependent on a set of changed resources, and queried for the
//! filesystem roots it reads from.

use vstd::prelude::*;
use vstd::pervasive::VecAdditionalExecFns;
use crate::abspath::AbsPathBuf;
use crate::config::{spec_platform_supported, DeployType, LinkType, Platform, Root, Target};
use crate::abspath::{parent_of, spec_parent};
use crate::fsio::{
    fs_canonicalize, fs_copy_file, fs_create_dir_all, fs_exists, fs_hard_link, fs_is_dir,
    fs_is_file, fs_symlink_auto, fs_symlink_kind,
};
use crate::strutil::str_to_chars;
use crate::resources::{
    spec_loc_text, HandleModel, LocModel, ResourceHandle, ResourceLocation, ResourceStore,
};
use crate::template::{
    define_variables, definition_models, spec_define_vars, spec_render_str, Context, Variable,
};

verus! {

/// Spec-level image of an action.
pub enum ActionModel {
    Link { ty: LinkType, from: Seq<char>, to: Seq<char> },
    Copy { from: LocModel, to: LocModel },
    MkDir { path: Seq<char> },
    TemplateExpand { ctx: Map<Seq<Seq<char>>, Seq<char>>, target: LocModel, output: LocModel },
}

/// One idempotent filesystem operation derived from a target.
#[derive(Debug, Clone, PartialEq, Eq)]
pub enum Action {
    /// A symbolic or hard link from `from` at `to`.
    Link { ty: LinkType, from: AbsPathBuf, to: AbsPathBuf },
    /// A copy of the content at `from` to `to`.
    Copy { from: ResourceLocation, to: ResourceLocation },
    /// A directory (and its missing ancestors).
    MkDir { path: AbsPathBuf },
    /// The content at `target`, rendered through `ctx`, stored at
    /// `output`.
    TemplateExpand { ctx: Context, target: ResourceLocation, output: ResourceLocation },
}

impl View for Action {
    type V = ActionModel;

    open spec fn view(&self) -> ActionModel {
        match self {
            Action::Link { ty, from, to } => ActionModel::Link { ty: *ty, from: from@, to: to@ },
            Action::Copy { from, to } => ActionModel::Copy { from: from@, to: to@ },
            Action::MkDir { path } => ActionModel::MkDir { path: path@ },
            Action::TemplateExpand { ctx, target, output } => ActionModel::TemplateExpand {
                ctx: ctx@,
                target: target@,
                output: output@,
            },
        }
    }
}

/// The spec-level image of an action list.
pub open spec fn action_models(s: Seq<Action>) -> Seq<ActionModel> {
    s.map(|i: int, a: Action| a@)
}

/// The location an action depends on reading, if any.
pub open spec fn dep_of(a: ActionModel) -> Option<LocModel> {
    match a {
        ActionModel::Link { from, .. } => Some(LocModel::Path(from)),
        ActionModel::Copy { from, .. } => Some(from),
        ActionModel::TemplateExpand { target, .. } => Some(target),
        ActionModel::MkDir { .. } => None,
    }
}

/// The location an action produces.
pub open spec fn out_of(a: ActionModel) -> LocModel {
    match a {
        ActionModel::Link { to, .. } => LocModel::Path(to),
        ActionModel::Copy { to, .. } => to,
        ActionModel::MkDir { path } => LocModel::Path(path),
        ActionModel::TemplateExpand { output, .. } => output,
    }
}

impl Action {
    /// The location this action depends on reading; `None` for a
    /// directory creation, which reads nothing.
    pub fn dependency(&self) -> (r: Option<ResourceLocation>)
        ensures
            match r {
                Some(l) => dep_of(self@) == Some(l@),
                None => dep_of(self@) is None,
            },
    {
        match self {
            Action::Link { from, .. } => Some(ResourceLocation::Path(from.duplicate())),
            Action::Copy { from, .. } => Some(from.duplicate()),
            Action::TemplateExpand { target, .. } => Some(target.duplicate()),
            Action::MkDir { .. } => None,
        }
    }

    /// The location this action produces.
    pub fn output(&self) -> (r: ResourceLocation)
        ensures
            r@ == out_of(self@),
    {
        match self {
            Action::Link { to, .. } => ResourceLocation::Path(to.duplicate()),
            Action::Copy { to, .. } => to.duplicate(),
            Action::MkDir { path } => ResourceLocation::Path(path.duplicate()),
            Action::TemplateExpand { output, .. } => output.duplicate(),
        }
    }

    /// Whether the action is a copy.
    pub fn is_copy(&self) -> (r: bool)
        ensures
            r == (self@ is Copy),
    {
        matches!(self, Action::Copy { .. })
    }

    /// The log line describing this action.
    pub fn describe(&self) -> (r: String)
        ensures
            r@ == spec_action_text(self@),
    {
        match self {
            Action::MkDir { path } => {
                let mut out = "mkdir ".to_owned();
                out.append(path.as_str());
                out
            },
            Action::Link { ty, from, to } => {
                let mut out = from.as_str().to_owned();
                out.append(" -> ");
                out.append(to.as_str());
                match ty {
                    LinkType::Hard => {
                        out.append(" [hard]");
                    },
                    LinkType::Soft => {
                        out.append(" [soft]");
                    },
                }
                out
            },
            Action::Copy { from, to } => {
                let mut out = "[".to_owned();
                let f = from.describe();
                out.append(f.as_str());
                out.append("] -> [");
                let t = to.describe();
                out.append(t.as_str());
                out.append("]");
                out
            },
            Action::TemplateExpand { target, output, .. } => {
                let mut out = "expand ".to_owned();
                let f = target.describe();
                out.append(f.as_str());
                out.append(" to ");
                let t = output.describe();
                out.append(t.as_str());
                out
            },
        }
    }

    /// An exact copy of the action, equal at the spec level.
    pub fn duplicate(&self) -> (r: Self)
        ensures
            r@ == self@,
    {
        match self {
            Action::Link { ty, from, to } => Action::Link {
                ty: *ty,
                from: from.duplicate(),
                to: to.duplicate(),
            },
            Action::Copy { from, to } => Action::Copy {
                from: from.duplicate(),
                to: to.duplicate(),
            },
            Action::MkDir { path } => Action::MkDir { path: path.duplicate() },
            Action::TemplateExpand { ctx, target, output } => Action::TemplateExpand {
                ctx: ctx.duplicate(),
                target: target.duplicate(),
                output: output.duplicate(),
            },
        }
    }
}

/// The log line describing an action.
pub open spec fn spec_action_text(a: ActionModel) -> Seq<char> {
    match a {
        ActionModel::MkDir { path } => "mkdir "@ + path,
        ActionModel::Link { ty, from, to } => from + " -> "@ + to + (match ty {
            LinkType::Hard => " [hard]"@,
            LinkType::Soft => " [soft]"@,
        }),
        ActionModel::Copy { from, to } => "["@ + spec_loc_text(from) + "] -> ["@ + spec_loc_text(
            to,
        ) + "]"@,
        ActionModel::TemplateExpand { target, output, .. } => "expand "@ + spec_loc_text(target)
            + " to "@ + spec_loc_text(output),
    }
}

/// A failure while building or running an action graph.
#[derive(Debug, Clone, PartialEq, Eq)]
pub enum Error {
    /// A filesystem operation failed; the message is the operating
    /// system's.
    Io { message: String },
    /// A template could not be rendered.
    Template(crate::template::Error),
    /// A target's rendered source path does not exist.
    SourceDoesNotExist { path: String },
    /// A link's destination already exists and is not a symlink.
    TargetExists { path: String },
    /// A link's destination is already a symlink pointing somewhere
    /// else.
    TargetSymlinksDiffer { path: String, ours: String, theirs: String },
    /// A hard link was requested for a source that is not a regular
    /// file — a configuration asking for something impossible. It is
    /// reported per action rather than aborting the process: whether
    /// the source is a file is a filesystem observation, and this
    /// crate's verified functions do not panic.
    HardLinkOfDirectory { path: String },
    /// The configuration's platform restriction excludes the current
    /// platform.
    ConfigDoesNotSupportPlatform,
    /// The current operating system is not one of the known
    /// platforms.
    UnsupportedPlatform,
    /// The graph holds no actions at all.
    NoActions,
}

impl Error {
    /// A human-readable description of the failure.
    pub fn describe(&self) -> (r: String)
        ensures
            match self {
                Error::Io { message } => r@ == message@,
                Error::Template(e) => r@ == (match e {
                    crate::template::Error::Parse(_) => "variable segment is empty"@,
                    crate::template::Error::UnmatchedVariable { var } => "unknown variable: "@
                        + crate::template::spec_join_with(var@, '.'),
                }),
                Error::SourceDoesNotExist { path } => r@ == "Source file does not exist: '"@
                    + path@ + "'"@,
                Error::TargetExists { path } => r@ == "Target file '"@ + path@
                    + "' already exists"@,
                Error::TargetSymlinksDiffer { path, ours, theirs } => r@ == "Target file '"@
                    + path@ + "' is already a symlink and its source is different to ours ('"@
                    + ours@ + "' vs '"@ + theirs@ + "')"@,
                Error::HardLinkOfDirectory { path } => r@ == "tried to hardlink directory: '"@
                    + path@ + "'"@,
                Error::ConfigDoesNotSupportPlatform => r@
                    == "This config does not support the current platform"@,
                Error::UnsupportedPlatform => r@
                    == "Terribly sorry, but dotloy doesn't support this platform/os"@,
                Error::NoActions => r@
                    == "No actions to perform, did you not define any targets in your config?"@,
            },
    {
        match self {
            Error::Io { message } => message.clone(),
            Error::Template(e) => e.describe(),
            Error::SourceDoesNotExist { path } => {
                let mut out = "Source file does not exist: '".to_owned();
                out.append(path.as_str());
                out.append("'");
                out
            },
            Error::TargetExists { path } => {
                let mut out = "Target file '".to_owned();
                out.append(path.as_str());
                out.append("' already exists");
                out
            },
            Error::TargetSymlinksDiffer { path, ours, theirs } => {
                let mut out = "Target file '".to_owned();
                out.append(path.as_str());
                out.append("' is already a symlink and its source is different to ours ('");
                out.append(ours.as_str());
                out.append("' vs '");
                out.append(theirs.as_str());
                out.append("')");
                out
            },
            Error::HardLinkOfDirectory { path } => {
                let mut out = "tried to hardlink directory: '".to_owned();
                out.append(path.as_str());
                out.append("'");
                out
            },
            Error::ConfigDoesNotSupportPlatform => {
                "This config does not support the current platform".to_owned()
            },
            Error::UnsupportedPlatform => {
                "Terribly sorry, but dotloy doesn't support this platform/os".to_owned()
            },
            Error::NoActions => {
                "No actions to perform, did you not define any targets in your config?".to_owned()
            },
        }
    }
}

/// Whether an action's in-memory input, if it has one, is defined in
/// the given store.
pub open spec fn action_input_ok(a: ActionModel, m: Map<u128, HandleModel>) -> bool {
    match dep_of(a) {
        Some(LocModel::InMemory(id)) => m.contains_key(id),
        _ => true,
    }
}

/// Whether every in-memory location an action touches — its input and
/// its output — is defined in the given store.
pub open spec fn action_locs_ok(a: ActionModel, m: Map<u128, HandleModel>) -> bool {
    action_input_ok(a, m) && (match out_of(a) {
        LocModel::InMemory(id) => m.contains_key(id),
        _ => true,
    })
}

/// The spec-level image of a location list.
pub open spec fn loc_models(s: Seq<ResourceLocation>) -> Seq<LocModel> {
    s.map(|i: int, l: ResourceLocation| l@)
}

/// Whether consumers come after their producers: every action whose
/// input is an in-memory slot appears strictly after an action whose
/// output is that slot, so executing in list order is executing in
/// dependency order.
pub open spec fn ordered_producers(acts: Seq<ActionModel>) -> bool {
    forall|i: int|
        0 <= i < acts.len() ==> (match dep_of(#[trigger] acts[i]) {
            Some(LocModel::InMemory(id)) => exists|j: int|
                0 <= j < i && out_of(#[trigger] acts[j]) == LocModel::InMemory(id),
            _ => true,
        })
}

/// Whether an action list holds an action with the given spec-level
/// image.
pub open spec fn has_action(s: Seq<ActionModel>, a: ActionModel) -> bool {
    exists|j: int| 0 <= j < s.len() && #[trigger] s[j] == a
}

/// Whether the location `d` is reachable from the root set within `n`
/// steps: it is a root, or it is the output of an action whose own
/// dependency is reachable in fewer steps.
pub open spec fn reaches(
    acts: Seq<ActionModel>,
    roots: Seq<LocModel>,
    d: LocModel,
    n: nat,
) -> bool
    decreases n,
{
    if roots.contains(d) {
        true
    } else if n == 0 {
        false
    } else {
        exists|i: int|
            0 <= i < acts.len() && #[trigger] out_of(acts[i]) == d && (match dep_of(acts[i]) {
                Some(dd) => reaches(acts, roots, dd, (n - 1) as nat),
                None => false,
            })
    }
}

/// Whether the location `d` is transitively downstream of the root
/// set.
pub open spec fn reachable(acts: Seq<ActionModel>, roots: Seq<LocModel>, d: LocModel) -> bool {
    exists|n: nat| reaches(acts, roots, d, n)
}

/// The number of `true` entries.
pub open spec fn count_true(s: Seq<bool>) -> int
    decreases s.len(),
{
    if s.len() == 0 {
        0
    } else {
        count_true(s.drop_last()) + if s.last() {
            1int
        } else {
            0int
        }
    }
}

proof fn lemma_count_true_bounds(s: Seq<bool>)
    ensures
        0 <= count_true(s) <= s.len(),
    decreases s.len(),
{
    if s.len() > 0 {
        lemma_count_true_bounds(s.drop_last());
    }
}

proof fn lemma_count_true_update(s: Seq<bool>, j: int)
    requires
        0 <= j < s.len(),
        !s[j],
    ensures
        count_true(s.update(j, true)) == count_true(s) + 1,
    decreases s.len(),
{
    let t = s.update(j, true);
    if j == s.len() - 1 {
        assert(t.drop_last() =~= s.drop_last());
    } else {
        assert(t.drop_last() =~= s.drop_last().update(j, true));
        assert(t.last() == s.last());
        lemma_count_true_update(s.drop_last(), j);
    }
}

/// In a picked set that is closed under the dependency relation,
/// every action whose dependency is reachable is picked.
proof fn lemma_reachable_is_picked(
    acts: Seq<ActionModel>,
    roots: Seq<LocModel>,
    picked: Seq<bool>,
    d: LocModel,
    n: nat,
)
    requires
        picked.len() == acts.len(),
        forall|j: int|
            0 <= j < acts.len() && (match dep_of(#[trigger] acts[j]) {
                Some(dd) => roots.contains(dd),
                None => false,
            }) ==> picked[j],
        forall|j: int, k: int|
            0 <= j < acts.len() && 0 <= k < acts.len() && picked[k] && (match dep_of(
                #[trigger] acts[j],
            ) {
                Some(dd) => out_of(#[trigger] acts[k]) == dd,
                None => false,
            }) ==> picked[j],
        reaches(acts, roots, d, n),
    ensures
        forall|j: int|
            0 <= j < acts.len() && dep_of(#[trigger] acts[j]) == Some(d) ==> picked[j],
    decreases n,
{
    if roots.contains(d) {
    } else {
        let i = choose|i: int|
            0 <= i < acts.len() && #[trigger] out_of(acts[i]) == d && (match dep_of(acts[i]) {
                Some(dd) => reaches(acts, roots, dd, (n - 1) as nat),
                None => false,
            });
        let dd = dep_of(acts[i])->Some_0;
        lemma_reachable_is_picked(acts, roots, picked, dd, (n - 1) as nat);
        assert(picked[i]);
    }
}

/// On a graph of independent actions — no action's output is another
/// action's input — an action's dependency is downstream of the root
/// set exactly when it is itself a root. With the contract of
/// [`Actions::dependents_of`] this pins the selected sub-graph down to
/// exactly the actions whose input location is in the root set,
/// whatever the size of that set.
pub proof fn lemma_independent_dependents(acts: Seq<ActionModel>, roots: Seq<LocModel>)
    requires
        forall|i: int, k: int|
            0 <= i < acts.len() && 0 <= k < acts.len() ==> dep_of(#[trigger] acts[i]) != Some(
                out_of(#[trigger] acts[k]),
            ),
    ensures
        forall|j: int|
            0 <= j < acts.len() ==> (match dep_of(#[trigger] acts[j]) {
                Some(d) => reachable(acts, roots, d) <==> roots.contains(d),
                None => true,
            }),
{
    assert forall|j: int| 0 <= j < acts.len() implies (match dep_of(#[trigger] acts[j]) {
        Some(d) => reachable(acts, roots, d) <==> roots.contains(d),
        None => true,
    }) by {
        match dep_of(acts[j]) {
            Some(d) => {
                if roots.contains(d) {
                    assert(reaches(acts, roots, d, 0));
                }
                if reachable(acts, roots, d) && !roots.contains(d) {
                    let nn = choose|nn: nat| reaches(acts, roots, d, nn);
                    let k = choose|k: int|
                        0 <= k < acts.len() && #[trigger] out_of(acts[k]) == d && (match dep_of(
                            acts[k],
                        ) {
                            Some(dd) => reaches(acts, roots, dd, (nn - 1) as nat),
                            None => false,
                        });
                    assert(dep_of(acts[j]) == Some(out_of(acts[k])));
                    assert(false);
                }
            },
            None => {},
        }
    }
}

/// What the filesystem state at a link's destination means for
/// creating the link, decided purely from what was observed.
#[derive(Debug, PartialEq, Eq)]
pub enum LinkAssessment {
    /// Nothing is at the destination: create the link.
    CreateLink,
    /// The destination is a symlink already resolving to the same
    /// path as the source: the link is already correct.
    AlreadyCorrect,
    /// The destination exists and is not a symlink.
    DestinationOccupied,
    /// The destination is a symlink resolving somewhere else.
    PointsElsewhere { ours: String, theirs: String },
    /// The destination is a symlink but one of the two paths could
    /// not be resolved.
    Unresolvable { message: String },
}

/// The result a link action reports for an assessment that calls for
/// no further work: an already-correct symlink is a success (running
/// the same link twice is idempotent), a non-symlink occupant is a
/// target-exists failure naming the destination, a symlink resolving
/// elsewhere is a symlink-mismatch failure carrying both resolved
/// paths, and an unresolvable path is an I/O failure.
pub fn settle_link_assessment(assessment: LinkAssessment, to: &AbsPathBuf) -> (r: Result<
    (),
    Error,
>)
    requires
        !(assessment is CreateLink),
    ensures
        match assessment {
            LinkAssessment::AlreadyCorrect => r is Ok,
            LinkAssessment::DestinationOccupied => (r matches Err(Error::TargetExists { path })
                && path@ == to@),
            LinkAssessment::PointsElsewhere { ours, theirs } => (r matches Err(
                Error::TargetSymlinksDiffer { path, ours: o, theirs: t },
            ) && path@ == to@ && o@ == ours@ && t@ == theirs@),
            LinkAssessment::Unresolvable { message } => (r matches Err(Error::Io { message: m })
                && m@ == message@),
            LinkAssessment::CreateLink => false,
        },
{
    match assessment {
        LinkAssessment::AlreadyCorrect => Ok(()),
        LinkAssessment::DestinationOccupied => Err(
            Error::TargetExists { path: to.as_str().to_owned() },
        ),
        LinkAssessment::PointsElsewhere { ours, theirs } => Err(
            Error::TargetSymlinksDiffer { path: to.as_str().to_owned(), ours, theirs },
        ),
        LinkAssessment::Unresolvable { message } => Err(Error::Io { message }),
        LinkAssessment::CreateLink => {
            proof {
                assert(false);
            }
            unreached()
        },
    }
}

/// Decides what to do at a link destination. `meta` is whether
/// something exists there and, if so, whether it is a symlink;
/// `canon_to` and `canon_from` are the canonicalized destination and
/// source, consulted only when the destination is a symlink. Running
/// the same link twice is idempotent: a destination that is already a
/// correctly-pointing symlink assesses as already correct, one
/// pointing elsewhere as a conflict, and a non-symlink occupant as
/// occupied.
pub fn assess_link(
    meta: Option<bool>,
    canon_to: Result<String, String>,
    canon_from: Result<String, String>,
) -> (r: LinkAssessment)
    ensures
        match meta {
            None => r is CreateLink,
            Some(false) => r is DestinationOccupied,
            Some(true) => match canon_to {
                Err(m) => (r matches LinkAssessment::Unresolvable { message } && message@ == m@),
                Ok(t) => match canon_from {
                    Err(m) => (r matches LinkAssessment::Unresolvable { message } && message@
                        == m@),
                    Ok(f) => if t@ == f@ {
                        r is AlreadyCorrect
                    } else {
                        (r matches LinkAssessment::PointsElsewhere { ours, theirs } && ours@ == f@
                            && theirs@ == t@)
                    },
                },
            },
        },
{
    match meta {
        None => LinkAssessment::CreateLink,
        Some(false) => LinkAssessment::DestinationOccupied,
        Some(true) => {
            let t = match canon_to {
                Ok(t) => t,
                Err(message) => {
                    return LinkAssessment::Unresolvable { message };
                },
            };
            let f = match canon_from {
                Ok(f) => f,
                Err(message) => {
                    return LinkAssessment::Unresolvable { message };
                },
            };
            if t.eq(&f) {
                LinkAssessment::AlreadyCorrect
            } else {
                LinkAssessment::PointsElsewhere { ours: f, theirs: t }
            }
        },
    }
}

impl Action {
    /// Performs the action against the filesystem and the shared
    /// store. Only a copy or template expansion into an in-memory
    /// slot changes the store; every other action leaves it as it
    /// was.
    pub fn run(&self, res: &mut ResourceStore) -> (r: Result<(), Error>)
        requires
            action_locs_ok(self@, old(res)@),
        ensures
            match self@ {
                ActionModel::MkDir { .. } => final(res)@ == old(res)@,
                ActionModel::Link { .. } => final(res)@ == old(res)@,
                ActionModel::Copy { from, to } => match to {
                    LocModel::InMemory(tid) => match from {
                        LocModel::InMemory(fid) => r is Ok && final(res)@ == old(res)@.insert(
                            tid,
                            old(res)@[fid],
                        ),
                        LocModel::Path(p) => r is Ok && final(res)@ == old(res)@.insert(
                            tid,
                            HandleModel::File(p),
                        ),
                    },
                    LocModel::Path(_) => final(res)@ == old(res)@,
                },
                ActionModel::TemplateExpand { ctx, target, output } => match output {
                    LocModel::Path(_) => final(res)@ == old(res)@,
                    LocModel::InMemory(oid) => (match r {
                        Ok(_) => exists|c: Seq<char>|
                            final(res)@ == old(res)@.insert(oid, HandleModel::MemStr(c)),
                        Err(_) => final(res)@ == old(res)@,
                    }) && (match target {
                        LocModel::InMemory(tid) => (old(res)@[tid] matches HandleModel::MemStr(s)
                            ==> (match crate::template::spec_render_str(ctx, s) {
                            Ok(o) => r is Ok && final(res)@ == old(res)@.insert(
                                oid,
                                HandleModel::MemStr(o),
                            ),
                            Err(e) => (r matches Err(Error::Template(te)) && te@ == e
                                && final(res)@ == old(res)@),
                        })),
                        LocModel::Path(_) => true,
                    }),
                },
            },
    {
        match self {
            Action::MkDir { path } => match fs_create_dir_all(path.as_str()) {
                Ok(_) => Ok(()),
                Err(message) => Err(Error::Io { message }),
            },
            Action::Link { ty, from, to } => {
                let meta = fs_symlink_kind(to.as_str());
                match meta {
                    Some(is_symlink) => {
                        let assessment = if is_symlink {
                            let canon_to = fs_canonicalize(to.as_str());
                            let canon_from = fs_canonicalize(from.as_str());
                            assess_link(meta, canon_to, canon_from)
                        } else {
                            LinkAssessment::DestinationOccupied
                        };
                        settle_link_assessment(assessment, to)
                    },
                    None => match ty {
                        LinkType::Soft => {
                            let source = match fs_canonicalize(from.as_str()) {
                                Ok(c) => c,
                                Err(message) => {
                                    return Err(Error::Io { message });
                                },
                            };
                            match fs_symlink_auto(source.as_str(), to.as_str()) {
                                Ok(_) => Ok(()),
                                Err(message) => Err(Error::Io { message }),
                            }
                        },
                        LinkType::Hard => {
                            if !fs_is_file(from.as_str()) {
                                return Err(Error::HardLinkOfDirectory {
                                    path: from.as_str().to_owned(),
                                });
                            }
                            match fs_hard_link(from.as_str(), to.as_str()) {
                                Ok(_) => Ok(()),
                                Err(message) => Err(Error::Io { message }),
                            }
                        },
                    },
                }
            },
            Action::Copy { from, to } => match from {
                ResourceLocation::InMemory { id: fid } => {
                    let handle = res.get(*fid).duplicate();
                    match res.set_content(to, handle) {
                        Ok(_) => Ok(()),
                        Err(message) => Err(Error::Io { message }),
                    }
                },
                ResourceLocation::Path(pf) => match to {
                    ResourceLocation::Path(pt) => match fs_copy_file(pf.as_str(), pt.as_str()) {
                        Ok(_) => Ok(()),
                        Err(message) => Err(Error::Io { message }),
                    },
                    ResourceLocation::InMemory { .. } => {
                        let handle = ResourceHandle::File(pf.duplicate());
                        match res.set_content(to, handle) {
                            Ok(_) => Ok(()),
                            Err(message) => Err(Error::Io { message }),
                        }
                    },
                },
            },
            Action::TemplateExpand { ctx, target, output } => {
                let content = match res.get_content(target) {
                    Ok(c) => c,
                    Err(message) => {
                        return Err(Error::Io { message });
                    },
                };
                let rendered = match ctx.render(content.as_str()) {
                    Ok(o) => o,
                    Err(e) => {
                        return Err(Error::Template(e));
                    },
                };
                match res.set_content(output, ResourceHandle::MemStr(rendered)) {
                    Ok(_) => Ok(()),
                    Err(message) => Err(Error::Io { message }),
                }
            },
        }
    }
}

/// An ordered list of actions and the resource store they share.
/// Execution order is construction order, which encodes dependency
/// order: the builder never emits a consumer before its producer.
#[derive(Debug, Clone)]
pub struct Actions {
    pub acts: Vec<Action>,
    pub resources: ResourceStore,
}

impl Actions {
    /// Every action's in-memory input is defined in the shared store.
    pub open spec fn wf(&self) -> bool {
        forall|i: int|
            0 <= i < self.acts@.len() ==> action_locs_ok(#[trigger] self.acts@[i]@, self.resources@)
    }

    /// The empty graph.
    pub fn new() -> (r: Self)
        ensures
            r.acts@ =~= Seq::<Action>::empty(),
            r.resources@ == Map::<u128, HandleModel>::empty(),
            r.wf(),
    {
        Actions { acts: Vec::new(), resources: ResourceStore::default() }
    }

    /// Moves another graph's actions and resources into this one, in
    /// order after this one's.
    pub fn append(&mut self, other: &mut Actions)
        requires
            old(self).wf(),
            old(other).wf(),
        ensures
            final(self).acts@ == old(self).acts@ + old(other).acts@,
            final(self).resources@ == old(self).resources@.union_prefer_right(
                old(other).resources@,
            ),
            final(other).acts@ =~= Seq::<Action>::empty(),
            final(self).wf(),
            ordered_producers(action_models(old(self).acts@)) && ordered_producers(
                action_models(old(other).acts@),
            ) ==> ordered_producers(action_models(final(self).acts@)),
    {
        self.acts.append(&mut other.acts);
        self.resources.append(&mut other.resources);
        proof {
            let a = action_models(old(self).acts@);
            let b = action_models(old(other).acts@);
            let c = action_models(self.acts@);
            if ordered_producers(a) && ordered_producers(b) {
                assert forall|i: int| 0 <= i < c.len() implies (match dep_of(#[trigger] c[i]) {
                    Some(LocModel::InMemory(id)) => exists|j: int|
                        0 <= j < i && out_of(#[trigger] c[j]) == LocModel::InMemory(id),
                    _ => true,
                }) by {
                    if i < a.len() {
                        assert(c[i] == a[i]);
                        let d = dep_of(a[i]);
                        if d is Some && d->Some_0 is InMemory {
                            let id = d->Some_0->InMemory_0;
                            let j = choose|j: int|
                                0 <= j < i && out_of(#[trigger] a[j]) == LocModel::InMemory(id);
                            assert(c[j] == a[j]);
                            assert(out_of(c[j]) == LocModel::InMemory(id));
                        }
                    } else {
                        assert(c[i] == b[i - a.len()]);
                        let d = dep_of(b[i - a.len()]);
                        if d is Some && d->Some_0 is InMemory {
                            let id = d->Some_0->InMemory_0;
                            let j = choose|j: int|
                                0 <= j < i - a.len() && out_of(#[trigger] b[j])
                                    == LocModel::InMemory(id);
                            assert(c[j + a.len()] == b[j]);
                            assert(out_of(c[j + a.len()]) == LocModel::InMemory(id));
                        }
                    }
                }
            }
        }
    }

    /// The sub-graph of actions transitively dependent on any of the
    /// given root locations, sharing this graph's resource store. An
    /// action is in the result exactly when its input location is a
    /// root or the output of another action in the result.
    pub fn dependents_of(&self, roots: Vec<ResourceLocation>) -> (r: Self)
        ensures
            r.resources@ == self.resources@,
            // only actions of this graph, with dependencies downstream of the roots
            forall|i: int|
                0 <= i < r.acts@.len() ==> has_action(
                    action_models(self.acts@),
                    #[trigger] r.acts@[i]@,
                ),
            forall|i: int|
                0 <= i < r.acts@.len() ==> (match dep_of(#[trigger] r.acts@[i]@) {
                    Some(d) => reachable(action_models(self.acts@), loc_models(roots@), d),
                    None => false,
                }),
            // and all of them: every action with a reachable dependency is included
            forall|j: int|
                0 <= j < self.acts@.len() && (match dep_of(#[trigger] self.acts@[j]@) {
                    Some(d) => reachable(action_models(self.acts@), loc_models(roots@), d),
                    None => false,
                }) ==> has_action(action_models(r.acts@), self.acts@[j]@),
            // each action of this graph is selected at most once
            r.acts@.len() <= self.acts@.len(),
            (forall|i: int, j: int|
                0 <= i < j < self.acts@.len() ==> self.acts@[i]@ != self.acts@[j]@) ==> (forall|
                i: int,
                j: int,
            |
                0 <= i < j < r.acts@.len() ==> r.acts@[i]@ != r.acts@[j]@),
            self.wf() ==> r.wf(),
    {
        let ghost acts = action_models(self.acts@);
        let ghost rootms = loc_models(roots@);
        let n = self.acts.len();
        let mut picked: Vec<bool> = Vec::new();
        let mut i: usize = 0;
        while i < n
            invariant
                i <= n,
                picked@.len() == i,
                forall|j: int| 0 <= j < i ==> !picked@[j],
            decreases n - i,
        {
            picked.push(false);
            i = i + 1;
        }
        let mut remaining: usize = n;
        proof {
            lemma_count_true_bounds(picked@);
            lemma_count_all_false(picked@);
        }
        let mut todo = roots;
        let mut dependents: Vec<Action> = Vec::new();
        let ghost mut wit: Seq<int> = Seq::empty();
        let ghost mut jw: Map<int, int> = Map::empty();
        proof {
            assert(forall|j: int| 0 <= j < n ==> acts[j] == self.acts@[j]@);
            assert forall|t: int| 0 <= t < todo@.len() implies reachable(
                acts,
                rootms,
                #[trigger] todo@[t]@,
            ) by {
                assert(rootms[t] == todo@[t]@);
                assert(rootms.contains(todo@[t]@));
                assert(reaches(acts, rootms, todo@[t]@, 0));
            }
        }
        while todo.len() > 0
            invariant
                n == self.acts@.len(),
                acts == action_models(self.acts@),
                picked@.len() == n,
                remaining == n - count_true(picked@),
                0 <= count_true(picked@) <= n,
                dependents@.len() == count_true(picked@),
                wit.len() == dependents@.len(),
                forall|i2: int|
                    0 <= i2 < wit.len() ==> 0 <= #[trigger] wit[i2] < n && picked@[wit[i2]]
                        && dependents@[i2]@ == acts[wit[i2]],
                forall|i1: int, i2: int|
                    0 <= i1 < i2 < wit.len() ==> #[trigger] wit[i1] != #[trigger] wit[i2],
                forall|j2: int|
                    0 <= j2 < n && picked@[j2] ==> #[trigger] jw.contains_key(j2) && jw[j2] >= 0
                        && jw[j2] < dependents@.len() && dependents@[jw[j2]]@ == acts[j2],
                forall|t: int|
                    0 <= t < todo@.len() ==> reachable(acts, rootms, #[trigger] todo@[t]@),
                forall|j2: int|
                    0 <= j2 < n && picked@[j2] ==> (match dep_of(#[trigger] acts[j2]) {
                        Some(d) => reachable(acts, rootms, d),
                        None => false,
                    }),
                forall|j2: int|
                    0 <= j2 < n && (match dep_of(#[trigger] acts[j2]) {
                        Some(d) => rootms.contains(d) || (exists|k: int|
                            0 <= k < n && picked@[k] && out_of(#[trigger] acts[k]) == d),
                        None => false,
                    }) ==> picked@[j2] || (match dep_of(acts[j2]) {
                        Some(d) => loc_models(todo@).contains(d),
                        None => false,
                    }),
            decreases remaining, todo@.len(),
        {
            let ghost old_todo = todo@;
            let resource = todo.pop().unwrap();
            proof {
                assert(loc_models(old_todo)[old_todo.len() - 1] == resource@);
                assert(reachable(acts, rootms, resource@));
                assert(loc_models(old_todo) =~= loc_models(todo@).push(resource@));
                assert forall|d: LocModel|
                    loc_models(old_todo).contains(d) implies loc_models(todo@).contains(d) || d
                    == resource@ by {
                    let t = choose|t: int|
                        0 <= t < loc_models(old_todo).len() && loc_models(old_todo)[t] == d;
                    if t < loc_models(todo@).len() {
                        assert(loc_models(todo@)[t] == d);
                    }
                }
            }
            let ghost remaining_at_pop = remaining;
            let ghost todo_base = todo@.len();
            let mut j: usize = 0;
            while j < n
                invariant
                    n == self.acts@.len(),
                    acts == action_models(self.acts@),
                    picked@.len() == n,
                    j <= n,
                    remaining == n - count_true(picked@),
                    0 <= count_true(picked@) <= n,
                    dependents@.len() == count_true(picked@),
                    remaining <= remaining_at_pop,
                    todo@.len() == todo_base + (remaining_at_pop - remaining),
                    reachable(acts, rootms, resource@),
                    wit.len() == dependents@.len(),
                    forall|i2: int|
                        0 <= i2 < wit.len() ==> 0 <= #[trigger] wit[i2] < n && picked@[wit[i2]]
                            && dependents@[i2]@ == acts[wit[i2]],
                    forall|i1: int, i2: int|
                        0 <= i1 < i2 < wit.len() ==> #[trigger] wit[i1] != #[trigger] wit[i2],
                    forall|j2: int|
                        0 <= j2 < n && picked@[j2] ==> #[trigger] jw.contains_key(j2) && jw[j2]
                            >= 0 && jw[j2] < dependents@.len() && dependents@[jw[j2]]@
                            == acts[j2],
                    forall|j2: int|
                        0 <= j2 < j && dep_of(#[trigger] acts[j2]) == Some(resource@)
                            ==> picked@[j2],
                    forall|t: int|
                        0 <= t < todo@.len() ==> reachable(acts, rootms, #[trigger] todo@[t]@),
                    forall|j2: int|
                        0 <= j2 < n && picked@[j2] ==> (match dep_of(#[trigger] acts[j2]) {
                            Some(d) => reachable(acts, rootms, d),
                            None => false,
                        }),
                    forall|j2: int|
                        0 <= j2 < n && (match dep_of(#[trigger] acts[j2]) {
                            Some(d) => rootms.contains(d) || (exists|k: int|
                                0 <= k < n && picked@[k] && out_of(#[trigger] acts[k]) == d),
                            None => false,
                        }) ==> picked@[j2] || (match dep_of(acts[j2]) {
                            Some(d) => loc_models(todo@).contains(d) || d == resource@,
                            None => false,
                        }),
                decreases n - j,
            {
                proof {
                    assert(acts[j as int] == self.acts@[j as int]@);
                }
                let already = picked[j];
                let matches_here = if already {
                    false
                } else {
                    match self.acts[j].dependency() {
                        Some(d) => d.same_as(&resource),
                        None => false,
                    }
                };
                if matches_here {
                    let ghost old_picked = picked@;
                    let ghost old_todo2 = todo@;
                    let ghost old_deps = dependents@;
                    let ghost old_jw = jw;
                    let ghost old_wit = wit;
                    picked.set(j, true);
                    let out = self.acts[j].output();
                    proof {
                        lemma_count_true_update(old_picked, j as int);
                        lemma_count_true_bounds(picked@);
                        assert(remaining >= 1);
                        // the output of a picked action is itself reachable
                        let nn = choose|nn: nat| reaches(acts, rootms, resource@, nn);
                        assert(reaches(acts, rootms, out@, nn + 1));
                    }
                    todo.push(out);
                    dependents.push(self.acts[j].duplicate());
                    proof {
                        wit = wit.push(j as int);
                        jw = jw.insert(j as int, old_deps.len() as int);
                        // the newly picked index is new to the witness list
                        assert forall|i1: int, i2: int|
                            0 <= i1 < i2 < wit.len() implies #[trigger] wit[i1]
                            != #[trigger] wit[i2] by {
                            if i2 == wit.len() - 1 {
                                assert(old_picked[old_wit[i1]]);
                                assert(!old_picked[j as int]);
                            } else {
                                assert(old_wit[i1] != old_wit[i2]);
                            }
                        }
                        assert(loc_models(todo@) =~= loc_models(old_todo2).push(
                            out_of(acts[j as int]),
                        ));
                        assert(loc_models(todo@)[loc_models(todo@).len() - 1] == out_of(
                            acts[j as int],
                        ));
                        assert(loc_models(todo@).contains(out_of(acts[j as int])));
                        assert(forall|t: int|
                            0 <= t < old_todo2.len() ==> loc_models(todo@)[t] == loc_models(
                                old_todo2,
                            )[t]);
                        assert forall|d: LocModel|
                            loc_models(old_todo2).contains(d) implies loc_models(
                            todo@,
                        ).contains(d) by {
                            let t = choose|t: int|
                                0 <= t < loc_models(old_todo2).len() && loc_models(old_todo2)[t]
                                    == d;
                            assert(loc_models(todo@)[t] == d);
                        }
                        assert(dependents@[dependents@.len() - 1]@ == acts[j as int]);
                        assert(forall|i2: int|
                            0 <= i2 < old_deps.len() ==> dependents@[i2] == old_deps[i2]);
                        assert forall|j2: int| 0 <= j2 < n && picked@[j2] implies
                            #[trigger] jw.contains_key(j2) && jw[j2] >= 0 && jw[j2]
                            < dependents@.len() && dependents@[jw[j2]]@ == acts[j2] by {
                            if j2 == j as int {
                                assert(jw[j2] == old_deps.len() as int);
                            } else {
                                assert(old_picked[j2]);
                                assert(old_jw.contains_key(j2));
                                assert(old_jw[j2] >= 0 && old_jw[j2] < old_deps.len()
                                    && old_deps[old_jw[j2]]@ == acts[j2]);
                                assert(jw[j2] == old_jw[j2]);
                                assert(dependents@[jw[j2]] == old_deps[jw[j2]]);
                            }
                        }
                    }
                    remaining = remaining - 1;
                }
                j = j + 1;
            }
        }
        proof {
            // the work list is empty: the picked set is closed, so it
            // holds every action whose dependency is reachable
            assert forall|j: int|
                0 <= j < n && (match dep_of(#[trigger] acts[j]) {
                    Some(d) => reachable(acts, rootms, d),
                    None => false,
                }) implies picked@[j] by {
                let d = dep_of(acts[j])->Some_0;
                let nn = choose|nn: nat| reaches(acts, rootms, d, nn);
                lemma_reachable_is_picked(acts, rootms, picked@, d, nn);
            }
            assert(forall|j: int| 0 <= j < n ==> acts[j] == self.acts@[j]@);
            assert forall|i2: int| 0 <= i2 < dependents@.len() implies has_action(
                acts,
                #[trigger] dependents@[i2]@,
            ) by {
                let j2 = wit[i2];
                assert(0 <= j2 < n && dependents@[i2]@ == acts[j2]);
                assert(acts[j2] == dependents@[i2]@);
            }
            assert forall|i2: int| 0 <= i2 < dependents@.len() implies (match dep_of(
                #[trigger] dependents@[i2]@,
            ) {
                Some(d) => reachable(acts, rootms, d),
                None => false,
            }) by {
                let j2 = wit[i2];
                assert(0 <= j2 < n && picked@[j2] && dependents@[i2]@ == acts[j2]);
            }
            assert(dependents@.len() <= n);
            assert forall|i1: int, i2: int|
                0 <= i1 < i2 < dependents@.len() && (forall|a1: int, a2: int|
                    0 <= a1 < a2 < self.acts@.len() ==> self.acts@[a1]@ != self.acts@[a2]@)
                implies #[trigger] dependents@[i1]@ != #[trigger] dependents@[i2]@ by {
                assert(dependents@[i1]@ == acts[wit[i1]]);
                assert(dependents@[i2]@ == acts[wit[i2]]);
                assert(wit[i1] != wit[i2]);
                if wit[i1] < wit[i2] {
                    assert(self.acts@[wit[i1]]@ != self.acts@[wit[i2]]@);
                } else {
                    assert(self.acts@[wit[i2]]@ != self.acts@[wit[i1]]@);
                }
            }
            assert forall|j: int|
                0 <= j < self.acts@.len() && (match dep_of(#[trigger] self.acts@[j]@) {
                    Some(d) => reachable(action_models(self.acts@), loc_models(roots@), d),
                    None => false,
                }) implies has_action(action_models(dependents@), self.acts@[j]@) by {
                assert(acts[j] == self.acts@[j]@);
                assert(picked@[j]);
                assert(jw.contains_key(j));
                let i2 = jw[j];
                assert(0 <= i2 < dependents@.len() && dependents@[i2]@ == acts[j]);
                assert(action_models(dependents@)[i2] == self.acts@[j]@);
            }
        }
        Actions { acts: dependents, resources: self.resources.duplicate() }
    }

    /// Runs every action in construction order against a snapshot of
    /// the store, so repeated runs start from the same defined
    /// handles. A failing action does not stop the run: its error is
    /// reported in its slot of the outcome list and the run
    /// continues, so one broken target cannot block independent ones.
    /// Running an empty graph is an error rather than a silent
    /// success. A dry run reports every action as skipped
    /// successfully and touches nothing.
    pub fn run(&self, dry: bool) -> (r: Result<Vec<Option<Error>>, Error>)
        requires
            self.wf(),
        ensures
            (self.acts@.len() == 0) <==> (r is Err),
            r matches Err(e) ==> e is NoActions,
            r matches Ok(outcomes) ==> outcomes@.len() == self.acts@.len(),
            dry ==> (r matches Ok(outcomes) ==> forall|i: int|
                0 <= i < outcomes@.len() ==> outcomes@[i] is None),
    {
        let n = self.acts.len();
        if n == 0 {
            return Err(Error::NoActions);
        }
        let mut res = self.resources.duplicate();
        let mut outcomes: Vec<Option<Error>> = Vec::new();
        let mut i: usize = 0;
        while i < n
            invariant
                n == self.acts@.len(),
                i <= n,
                self.wf(),
                outcomes@.len() == i,
                dry ==> forall|k: int| 0 <= k < i ==> outcomes@[k] is None,
                forall|id: u128|
                    self.resources@.contains_key(id) ==> #[trigger] res@.contains_key(id),
            decreases n - i,
        {
            if dry {
                outcomes.push(None);
            } else {
                proof {
                    assert(action_locs_ok(self.acts@[i as int]@, self.resources@));
                }
                match self.acts[i].run(&mut res) {
                    Ok(_) => {
                        outcomes.push(None);
                    },
                    Err(e) => {
                        outcomes.push(Some(e));
                    },
                }
            }
            i = i + 1;
        }
        Ok(outcomes)
    }

    /// The filesystem locations to register with a watcher, one per
    /// action that reads from a path (copies and template
    /// expansions): the path itself if it is a directory, otherwise
    /// the directory containing it (or the path again if it has no
    /// parent).
    pub fn watch_paths(&self) -> (r: Vec<String>)
        ensures
            r@.len() == spec_watch_sources(action_models(self.acts@)).len(),
            forall|i: int|
                0 <= i < r@.len() ==> (#[trigger] r@[i]@ == spec_watch_sources(
                    action_models(self.acts@),
                )[i] || spec_parent(spec_watch_sources(action_models(self.acts@))[i]) == Some(
                    r@[i]@,
                )),
    {
        let n = self.acts.len();
        let mut out: Vec<String> = Vec::new();
        let mut i: usize = 0;
        let ghost srcs = spec_watch_sources(action_models(self.acts@));
        proof {
            assert(action_models(self.acts@).take(0) =~= Seq::<ActionModel>::empty());
        }
        while i < n
            invariant
                n == self.acts@.len(),
                i <= n,
                srcs == spec_watch_sources(action_models(self.acts@)),
                out@.len() == spec_watch_sources(action_models(self.acts@).take(i as int)).len(),
                spec_watch_sources(action_models(self.acts@).take(i as int)) =~= srcs.take(
                    out@.len() as int,
                ),
                forall|k: int|
                    0 <= k < out@.len() ==> (#[trigger] out@[k]@ == srcs[k] || spec_parent(
                        srcs[k],
                    ) == Some(out@[k]@)),
            decreases n - i,
        {
            proof {
                assert(action_models(self.acts@)[i as int] == self.acts@[i as int]@);
                assert(action_models(self.acts@).take(i + 1).drop_last() =~= action_models(
                    self.acts@,
                ).take(i as int));
                assert(action_models(self.acts@).take(i + 1).last() == action_models(
                    self.acts@,
                )[i as int]);
            }
            let source: Option<&AbsPathBuf> = match &self.acts[i] {
                Action::Copy { from, .. } => from.as_path(),
                Action::TemplateExpand { target, .. } => target.as_path(),
                _ => None,
            };
            match source {
                Some(p) => {
                    let ghost pv = p@;
                    proof {
                        assert(spec_watch_sources(action_models(self.acts@).take(i + 1))
                            =~= spec_watch_sources(action_models(self.acts@).take(i as int)).push(
                            pv,
                        ));
                        lemma_watch_prefix(action_models(self.acts@), i + 1);
                        assert(spec_watch_sources(action_models(self.acts@).take(i + 1)).len()
                            == out@.len() + 1);
                        assert(spec_watch_sources(action_models(self.acts@).take(i + 1))[
                            out@.len() as int
                        ] == pv);
                        assert(spec_watch_sources(action_models(self.acts@).take(i + 1))
                            =~= srcs.take(out@.len() as int + 1));
                        assert(srcs.take(out@.len() as int + 1)[out@.len() as int] == srcs[
                            out@.len() as int
                        ]);
                        assert(srcs[out@.len() as int] == pv);
                    }
                    if fs_is_dir(p.as_str()) {
                        out.push(p.as_str().to_owned());
                    } else {
                        match parent_of(p.as_str()) {
                            Some(parent) => {
                                out.push(parent);
                            },
                            None => {
                                out.push(p.as_str().to_owned());
                            },
                        }
                    }
                },
                None => {
                    proof {
                        assert(spec_watch_sources(action_models(self.acts@).take(i + 1))
                            =~= spec_watch_sources(action_models(self.acts@).take(i as int)));
                    }
                },
            }
            i = i + 1;
        }
        proof {
            assert(action_models(self.acts@).take(n as int) =~= action_models(self.acts@));
            assert(srcs.take(out@.len() as int) =~= srcs);
        }
        out
    }

    /// The filesystem paths the graph's actions read from, in action
    /// order.
    pub fn file_roots(&self) -> (r: Vec<AbsPathBuf>)
        ensures
            path_models(r@) == spec_file_roots(action_models(self.acts@)),
    {
        let n = self.acts.len();
        let mut out: Vec<AbsPathBuf> = Vec::new();
        let mut i: usize = 0;
        proof {
            assert(action_models(self.acts@).take(0) =~= Seq::<ActionModel>::empty());
            assert(path_models(out@) =~= spec_file_roots(action_models(self.acts@).take(0)));
        }
        while i < n
            invariant
                n == self.acts@.len(),
                i <= n,
                path_models(out@) == spec_file_roots(action_models(self.acts@).take(i as int)),
            decreases n - i,
        {
            let ghost sofar = path_models(out@);
            proof {
                assert(action_models(self.acts@)[i as int] == self.acts@[i as int]@);
                assert(action_models(self.acts@).take(i + 1).drop_last() =~= action_models(
                    self.acts@,
                ).take(i as int));
                assert(action_models(self.acts@).take(i + 1).last() == action_models(
                    self.acts@,
                )[i as int]);
            }
            match self.acts[i].dependency() {
                Some(loc) => match loc {
                    ResourceLocation::Path(p) => {
                        let ghost pv = p@;
                        out.push(p);
                        proof {
                            assert(path_models(out@) =~= sofar.push(pv));
                        }
                    },
                    ResourceLocation::InMemory { .. } => {},
                },
                None => {},
            }
            i = i + 1;
        }
        proof {
            assert(action_models(self.acts@).take(n as int) =~= action_models(self.acts@));
        }
        out
    }
}

/// The shape of the two actions that deploy a template: an expansion
/// through the given context from a path into the in-memory slot
/// `id`, followed by a copy of that slot to a path.
pub open spec fn template_pair_shape(
    first: ActionModel,
    second: ActionModel,
    c: Map<Seq<Seq<char>>, Seq<char>>,
    id: u128,
) -> bool {
    match first {
        ActionModel::TemplateExpand { ctx, target, output } => {
            &&& ctx == c
            &&& target is Path
            &&& output == LocModel::InMemory(id)
            &&& match second {
                ActionModel::Copy { from, to } => from == LocModel::InMemory(id) && to is Path,
                _ => false,
            }
        },
        _ => false,
    }
}

/// Accumulates actions and their shared store while a configuration
/// is compiled.
#[derive(Debug)]
pub struct ActionsBuilder {
    pub acts: Vec<Action>,
    pub res: ResourceStore,
}

impl Default for ActionsBuilder {
    /// No actions and an empty store.
    fn default() -> (r: Self)
        ensures
            r.acts@ =~= Seq::<Action>::empty(),
            r.res@ == Map::<u128, HandleModel>::empty(),
    {
        ActionsBuilder { acts: Vec::new(), res: ResourceStore::default() }
    }
}

impl ActionsBuilder {
    /// Every accumulated action's in-memory input is defined in the
    /// store.
    pub open spec fn wf(&self) -> bool {
        forall|i: int|
            0 <= i < self.acts@.len() ==> action_locs_ok(#[trigger] self.acts@[i]@, self.res@)
    }

    /// Appends a copy between two locations.
    pub fn copy(&mut self, from: ResourceLocation, to: ResourceLocation)
        ensures
            final(self).acts@ == old(self).acts@.push((Action::Copy { from, to })),
            final(self).res@ == old(self).res@,
    {
        self.acts.push(Action::Copy { from, to });
    }

    /// Appends a link of the given kind, resolving both paths.
    pub fn link(&mut self, from: &str, to: &str, ty: LinkType, cwd: &AbsPathBuf)
        requires
            cwd.wf(),
        ensures
            final(self).res@ == old(self).res@,
            final(self).acts@.len() == old(self).acts@.len() + 1,
            forall|i: int|
                0 <= i < old(self).acts@.len() ==> final(self).acts@[i] == old(self).acts@[i],
            final(self).acts@.last()@ matches ActionModel::Link { ty: t, from: f, to: tt } && t
                == ty,
    {
        self.acts.push(
            Action::Link { ty, from: AbsPathBuf::new(from, cwd), to: AbsPathBuf::new(to, cwd) },
        );
    }

    /// Appends a template expansion from `src` to `dst`.
    pub fn template(&mut self, ctx: Context, src: ResourceLocation, dst: ResourceLocation)
        ensures
            final(self).acts@ == old(self).acts@.push(
                (Action::TemplateExpand { ctx, target: src, output: dst }),
            ),
            final(self).res@ == old(self).res@,
    {
        self.acts.push(Action::TemplateExpand { ctx, target: src, output: dst });
    }

    /// Appends the two actions that deploy a template: an expansion
    /// of the source into a fresh in-memory slot, then a copy of that
    /// slot to the destination.
    pub fn template_expand(&mut self, ctx: Context, src: &str, dst: &str, cwd: &AbsPathBuf)
        requires
            cwd.wf(),
        ensures
            final(self).acts@.len() == old(self).acts@.len() + 2,
            forall|i: int|
                0 <= i < old(self).acts@.len() ==> final(self).acts@[i] == old(self).acts@[i],
            exists|id: u128|
                #[trigger] template_pair_shape(
                    final(self).acts@[old(self).acts@.len() as int]@,
                    final(self).acts@.last()@,
                    ctx@,
                    id,
                ) && final(self).res@ == old(self).res@.insert(
                    id,
                    HandleModel::MemStr(Seq::empty()),
                ),
    {
        let resource = self.res.define_mem();
        let ghost idv = choose|id: u128| resource@ == LocModel::InMemory(id);
        let ghost cv = ctx@;
        let slot = resource.duplicate();
        let source = ResourceLocation::Path(AbsPathBuf::new(src, cwd));
        self.template(ctx, source, resource);
        self.copy(slot, ResourceLocation::Path(AbsPathBuf::new(dst, cwd)));
        proof {
            assert(template_pair_shape(
                self.acts@[old(self).acts@.len() as int]@,
                self.acts@.last()@,
                cv,
                idv,
            ));
        }
    }

    /// Appends a directory creation.
    pub fn mkdir(&mut self, dir: &str, cwd: &AbsPathBuf)
        requires
            cwd.wf(),
        ensures
            final(self).res@ == old(self).res@,
            final(self).acts@.len() == old(self).acts@.len() + 1,
            forall|i: int|
                0 <= i < old(self).acts@.len() ==> final(self).acts@[i] == old(self).acts@[i],
            final(self).acts@.last()@ is MkDir,
    {
        self.acts.push(Action::MkDir { path: AbsPathBuf::new(dir, cwd) });
    }

    /// The finished graph.
    pub fn build(self) -> (r: Actions)
        ensures
            r.acts@ == self.acts@,
            r.resources@ == self.res@,
            self.wf() ==> r.wf(),
    {
        Actions { acts: self.acts, resources: self.res }
    }
}

/// The namespace under which configuration-level variables are
/// defined.
pub open spec fn config_namespace() -> Seq<Seq<char>> {
    seq!["config"@]
}

/// The namespace under which target-level variables are defined.
pub open spec fn target_namespace() -> Seq<Seq<char>> {
    seq!["target"@]
}

/// The variable prefix for configuration-level definitions.
pub fn config_level() -> (r: Variable)
    ensures
        r@ == config_namespace(),
{
    Variable::single("config".to_owned())
}

/// The variable prefix for target-level definitions.
pub fn target_level() -> (r: Variable)
    ensures
        r@ == target_namespace(),
{
    Variable::single("target".to_owned())
}

/// Whether a source path names a template by default: it ends in
/// `.in`.
pub open spec fn spec_is_template_path(s: Seq<char>) -> bool {
    s.len() >= 3 && s.subrange(s.len() - 3, s.len() as int) == seq!['.', 'i', 'n']
}

/// Whether a target is treated as a template: its explicit flag if it
/// has one, else whether its source path ends in `.in`.
pub open spec fn spec_wants_template(flag: Option<bool>, src: Seq<char>) -> bool {
    match flag {
        Some(b) => b,
        None => spec_is_template_path(src),
    }
}

/// Whether a source path ends in `.in`.
pub fn is_template_path(s: &str) -> (r: bool)
    ensures
        r == spec_is_template_path(s@),
{
    let chars = str_to_chars(s);
    let n = chars.len();
    if n < 3 {
        return false;
    }
    let matched = chars[n - 3] == '.' && chars[n - 2] == 'i' && chars[n - 1] == 'n';
    proof {
        let t = s@.subrange(n as int - 3, n as int);
        assert(t[0] == s@[n as int - 3] && t[1] == s@[n as int - 2] && t[2] == s@[n as int - 1]);
        if matched {
            assert(t =~= seq!['.', 'i', 'n']);
        } else {
            if spec_is_template_path(s@) {
                assert(t == seq!['.', 'i', 'n']);
                assert(t[0] == '.' && t[1] == 'i' && t[2] == 'n');
            }
        }
    }
    matched
}

/// The link kind chosen when a target names none: a directory source
/// is soft-linked (a directory cannot be hard-linked), anything else
/// is hard-linked.
pub fn auto_link_kind(source_is_dir: bool) -> (r: LinkType)
    ensures
        r == (if source_is_dir {
            LinkType::Soft
        } else {
            LinkType::Hard
        }),
{
    if source_is_dir {
        LinkType::Soft
    } else {
        LinkType::Hard
    }
}

/// The shape of the actions one deployed target contributes, not
/// counting a leading directory creation: for a template, exactly the
/// expansion-then-copy pair wired through one fresh in-memory slot;
/// otherwise a single copy or link matching the target's deployment
/// kind, with the store untouched.
pub open spec fn target_body_shape(
    body: Seq<ActionModel>,
    c: Map<Seq<Seq<char>>, Seq<char>>,
    lt: DeployType,
    wants: bool,
    m_old: Map<u128, HandleModel>,
    m_new: Map<u128, HandleModel>,
) -> bool {
    if wants {
        body.len() == 2 && (exists|id: u128|
            #[trigger] template_pair_shape(body[0], body[1], c, id) && m_new == m_old.insert(
                id,
                HandleModel::MemStr(Seq::empty()),
            ))
    } else {
        m_new == m_old && body.len() == 1 && (match lt {
            DeployType::Copy => (body[0] matches ActionModel::Copy { from, to } && from is Path
                && to is Path),
            DeployType::Link(ty) => (body[0] matches ActionModel::Link { ty: t, .. } && t == ty),
            DeployType::Auto => body[0] is Link,
        })
    }
}

/// The shape of everything one deployed target contributes: its body,
/// possibly preceded by one directory creation for a missing parent
/// of the destination.
pub open spec fn target_added_shape(
    added: Seq<ActionModel>,
    c: Map<Seq<Seq<char>>, Seq<char>>,
    lt: DeployType,
    wants: bool,
    m_old: Map<u128, HandleModel>,
    m_new: Map<u128, HandleModel>,
) -> bool {
    ||| target_body_shape(added, c, lt, wants, m_old, m_new)
    ||| (added.len() >= 1 && added[0] is MkDir && target_body_shape(
        added.skip(1),
        c,
        lt,
        wants,
        m_old,
        m_new,
    ))
}

/// Whether one target's variable definitions or path renders — the
/// parts of compiling it that consult no outside state — fail with
/// exactly the given rendering error.
pub open spec fn target_template_failure(
    c1: Map<Seq<Seq<char>>, Seq<char>>,
    t: Target,
    e: crate::template::ErrorModel,
) -> bool {
    match spec_define_vars(c1, target_namespace(), definition_models(t.shared.variables@)) {
        Err((m2, e2)) => e2 == e,
        Ok(c2) => match spec_render_str(c2, t.path@) {
            Err(e2) => e2 == e,
            Ok(_) => match spec_render_str(c2, t.target_location@) {
                Err(e2) => e2 == e,
                Ok(_) => false,
            },
        },
    }
}

/// The source path one target renders to, when its variable
/// definitions and source render succeed.
pub open spec fn target_source_path(c1: Map<Seq<Seq<char>>, Seq<char>>, t: Target) -> Option<
    Seq<char>,
> {
    match spec_define_vars(c1, target_namespace(), definition_models(t.shared.variables@)) {
        Ok(c2) => match spec_render_str(c2, t.path@) {
            Ok(src) => Some(src),
            Err(_) => None,
        },
        Err(_) => None,
    }
}

/// Extending an ordered action list with actions that read no
/// in-memory slot keeps it ordered.
proof fn lemma_ordered_prefix_extend(a: Seq<ActionModel>, b: Seq<ActionModel>)
    requires
        a.len() <= b.len(),
        forall|i: int| 0 <= i < a.len() ==> b[i] == a[i],
        ordered_producers(a),
        forall|i: int|
            a.len() <= i < b.len() ==> (match dep_of(#[trigger] b[i]) {
                Some(LocModel::InMemory(_)) => false,
                _ => true,
            }),
    ensures
        ordered_producers(b),
{
    assert forall|i: int| 0 <= i < b.len() implies (match dep_of(#[trigger] b[i]) {
        Some(LocModel::InMemory(id)) => exists|j: int|
            0 <= j < i && out_of(#[trigger] b[j]) == LocModel::InMemory(id),
        _ => true,
    }) by {
        if i < a.len() {
            assert(b[i] == a[i]);
            let d = dep_of(a[i]);
            if d is Some && d->Some_0 is InMemory {
                let id = d->Some_0->InMemory_0;
                let j = choose|j: int|
                    0 <= j < i && out_of(#[trigger] a[j]) == LocModel::InMemory(id);
                assert(b[j] == a[j]);
                assert(out_of(b[j]) == LocModel::InMemory(id));
            }
        }
    }
}

/// Compiles one target into the builder. A target whose platform
/// restriction excludes the current platform contributes nothing.
/// Otherwise its scoped variables are defined under the `target`
/// namespace, its source and destination are rendered, a missing
/// source is an error, a missing parent directory of the destination
/// contributes a leading directory creation, and the target's body is
/// an expansion-and-copy pair, a copy, or a link, as its options
/// say.
pub fn process_target(
    builder: &mut ActionsBuilder,
    engine: &Context,
    target: &Target,
    platform: Platform,
    cwd: &AbsPathBuf,
) -> (r: Result<(), Error>)
    requires
        cwd.wf(),
        old(builder).wf(),
    ensures
        final(builder).wf(),
        ordered_producers(action_models(old(builder).acts@)) ==> ordered_producers(
            action_models(final(builder).acts@),
        ),
        old(builder).acts@.len() <= final(builder).acts@.len(),
        forall|i: int|
            0 <= i < old(builder).acts@.len() ==> final(builder).acts@[i]
                == old(builder).acts@[i],
        !spec_platform_supported(target.shared.runs_on, platform) ==> r is Ok
            && final(builder).acts@ == old(builder).acts@
            && final(builder).res@ == old(builder).res@,
        spec_platform_supported(target.shared.runs_on, platform) ==> (match spec_define_vars(
            engine@,
            target_namespace(),
            definition_models(target.shared.variables@),
        ) {
            Err((m2, e)) => (r matches Err(Error::Template(te)) && te@ == e),
            Ok(ctx2) => match spec_render_str(ctx2, target.path@) {
                Err(e) => (r matches Err(Error::Template(te)) && te@ == e),
                Ok(src) => match r {
                    Err(Error::SourceDoesNotExist { path }) => path@ == src,
                    _ => match spec_render_str(ctx2, target.target_location@) {
                        Err(e) => (r matches Err(Error::Template(te)) && te@ == e),
                        Ok(dst) => match r {
                            Ok(_) => target_added_shape(
                                action_models(final(builder).acts@).skip(
                                    old(builder).acts@.len() as int,
                                ),
                                ctx2,
                                target.link_type,
                                spec_wants_template(target.is_template, src),
                                old(builder).res@,
                                final(builder).res@,
                            ),
                            Err(Error::Io { .. }) => target.link_type is Auto
                                && !spec_wants_template(target.is_template, src),
                            Err(_) => false,
                        },
                    },
                },
            },
        }),
{
    if !target.shared.is_platform_supported(platform) {
        return Ok(());
    }
    let mut ctx = engine.duplicate();
    match define_variables(&mut ctx, &target_level(), &target.shared.variables) {
        Ok(_) => {},
        Err(e) => {
            return Err(Error::Template(e));
        },
    }
    let src = match target.path.render(&ctx) {
        Ok(s) => s,
        Err(e) => {
            return Err(Error::Template(e));
        },
    };
    if !fs_exists(src.as_str()) {
        return Err(Error::SourceDoesNotExist { path: src });
    }
    let dst = match target.target_location.render(&ctx) {
        Ok(s) => s,
        Err(e) => {
            return Err(Error::Template(e));
        },
    };
    let ghost base = builder.acts@.len() as int;
    let ghost res0 = builder.res@;
    match parent_of(dst.as_str()) {
        Some(p) => {
            if !fs_exists(p.as_str()) {
                builder.mkdir(p.as_str(), cwd);
            }
        },
        None => {},
    }
    let ghost mid = builder.acts@.len() as int;
    let ghost cv = ctx@;
    let wants = match target.is_template {
        Some(b) => b,
        None => is_template_path(src.as_str()),
    };
    if wants {
        builder.template_expand(ctx, src.as_str(), dst.as_str(), cwd);
    } else {
        match target.link_type {
            DeployType::Copy => {
                let from = ResourceLocation::Path(AbsPathBuf::new(src.as_str(), cwd));
                let to = ResourceLocation::Path(AbsPathBuf::new(dst.as_str(), cwd));
                builder.copy(from, to);
            },
            DeployType::Auto => {
                let canon = match fs_canonicalize(src.as_str()) {
                    Ok(c) => c,
                    Err(message) => {
                        proof {
                            if ordered_producers(action_models(old(builder).acts@)) {
                                assert(forall|k: int|
                                    0 <= k < builder.acts@.len() ==> action_models(
                                        builder.acts@,
                                    )[k] == builder.acts@[k]@);
                                lemma_ordered_prefix_extend(
                                    action_models(old(builder).acts@),
                                    action_models(builder.acts@),
                                );
                            }
                        }
                        return Err(Error::Io { message });
                    },
                };
                let ty = auto_link_kind(fs_is_dir(canon.as_str()));
                builder.link(src.as_str(), dst.as_str(), ty, cwd);
            },
            DeployType::Link(ty) => {
                builder.link(src.as_str(), dst.as_str(), ty, cwd);
            },
        }
    }
    proof {
        let added = action_models(builder.acts@).skip(base);
        let body = action_models(builder.acts@).skip(mid);
        assert forall|k: int| 0 <= k < builder.acts@.len() implies action_models(
            builder.acts@,
        )[k] == builder.acts@[k]@ by {}
        if mid > base {
            assert(builder.acts@[base]@ is MkDir);
            assert(added[0] == builder.acts@[base]@);
            assert(added.skip(1) =~= body);
        } else {
            assert(added =~= body);
        }
        if wants {
            assert(body.len() == 2);
            assert(body[0] == builder.acts@[mid]@ && body[1] == builder.acts@[mid + 1]@);
        } else {
            assert(body.len() == 1);
            assert(body[0] == builder.acts@[mid]@);
        }
        assert(target_body_shape(
            body,
            cv,
            target.link_type,
            wants,
            res0,
            builder.res@,
        ));
        if ordered_producers(action_models(old(builder).acts@)) {
            let oldm = action_models(old(builder).acts@);
            let newm = action_models(builder.acts@);
            if wants {
                let id = choose|id: u128|
                    #[trigger] template_pair_shape(body[0], body[1], cv, id) && builder.res@
                        == res0.insert(id, HandleModel::MemStr(Seq::empty()));
                assert forall|i: int| 0 <= i < newm.len() implies (match dep_of(
                    #[trigger] newm[i],
                ) {
                    Some(LocModel::InMemory(id2)) => exists|j: int|
                        0 <= j < i && out_of(#[trigger] newm[j]) == LocModel::InMemory(id2),
                    _ => true,
                }) by {
                    if i < base {
                        assert(newm[i] == oldm[i]);
                        let d = dep_of(oldm[i]);
                        if d is Some && d->Some_0 is InMemory {
                            let id2 = d->Some_0->InMemory_0;
                            let j = choose|j: int|
                                0 <= j < i && out_of(#[trigger] oldm[j]) == LocModel::InMemory(
                                    id2,
                                );
                            assert(newm[j] == oldm[j]);
                            assert(out_of(newm[j]) == LocModel::InMemory(id2));
                        }
                    } else if i == mid + 1 {
                        assert(newm[i] == body[1]);
                        assert(newm[mid] == body[0]);
                        assert(out_of(newm[mid]) == LocModel::InMemory(id));
                    } else if i == mid {
                        assert(newm[i] == body[0]);
                    } else {
                        assert(newm[i] is MkDir);
                    }
                }
            } else {
                assert forall|i: int|
                    base <= i < newm.len() implies (match dep_of(#[trigger] newm[i]) {
                    Some(LocModel::InMemory(_)) => false,
                    _ => true,
                }) by {
                    if i == mid {
                        assert(newm[i] == body[0]);
                    } else {
                        assert(newm[i] is MkDir);
                    }
                }
                lemma_ordered_prefix_extend(oldm, newm);
            }
        }
    }
    Ok(())
}

impl Actions {
    /// Compiles a whole configuration into an action graph. Fails when
    /// the current platform is unknown or excluded by the configuration,
    /// or when a variable or path template cannot be rendered, or when a
    /// target's source does not exist; a failure leaves no actions behind
    /// at all. Targets whose platform restriction excludes the current
    /// platform contribute zero actions; in particular a configuration
    /// none of whose targets apply compiles to an empty graph.
    pub fn from_config(
        cfg: &Root,
        engine: &Context,
        platform: Option<Platform>,
        cwd: &AbsPathBuf,
    ) -> (r: Result<Actions, Error>)
        requires
            cwd.wf(),
        ensures
            match platform {
                None => (r matches Err(e) && e is UnsupportedPlatform),
                Some(p) => {
                    if !spec_platform_supported(cfg.shared.runs_on, p) {
                        (r matches Err(e) && e is ConfigDoesNotSupportPlatform)
                    } else {
                        match spec_define_vars(
                            engine@,
                            config_namespace(),
                            definition_models(cfg.shared.variables@),
                        ) {
                            Err((m2, e)) => (r matches Err(Error::Template(te)) && te@ == e),
                            Ok(ctx1) => {
                                &&& (r matches Ok(a) ==> a.wf())
                                &&& (r matches Ok(a) ==> ordered_producers(action_models(a.acts@)))
                                &&& (r matches Err(e2) ==> (e2 is Template || e2 is SourceDoesNotExist
                                    || e2 is Io))
                                // with every target excluded no outside call is
                                // reached, so compilation must succeed, and with
                                // an empty graph
                                &&& ((forall|k: int|
                                    0 <= k < cfg.targets@.len() ==> !spec_platform_supported(
                                        #[trigger] cfg.targets@[k].shared.runs_on,
                                        p,
                                    )) ==> (r matches Ok(a) && a.acts@.len() == 0))
                                // an error is never invented: each kind is pinned
                                // to an included target that produces it
                                &&& (r matches Err(Error::Template(te)) ==> exists|k: int|
                                    0 <= k < cfg.targets@.len() && spec_platform_supported(
                                        (#[trigger] cfg.targets@[k]).shared.runs_on,
                                        p,
                                    ) && target_template_failure(ctx1, cfg.targets@[k], te@))
                                &&& (r matches Err(Error::SourceDoesNotExist { path }) ==> exists|
                                    k: int,
                                |
                                    0 <= k < cfg.targets@.len() && spec_platform_supported(
                                        (#[trigger] cfg.targets@[k]).shared.runs_on,
                                        p,
                                    ) && target_source_path(ctx1, cfg.targets@[k]) == Some(
                                        path@,
                                    ))
                                &&& (r matches Err(Error::Io { .. }) ==> exists|k: int|
                                    0 <= k < cfg.targets@.len() && spec_platform_supported(
                                        (#[trigger] cfg.targets@[k]).shared.runs_on,
                                        p,
                                    ) && cfg.targets@[k].link_type is Auto && (match
                                    target_source_path(ctx1, cfg.targets@[k]) {
                                        Some(src) => !spec_wants_template(
                                            cfg.targets@[k].is_template,
                                            src,
                                        ),
                                        None => false,
                                    }))
                            },
                        }
                    }
                },
            },
    {
        let current = match platform {
            Some(p) => p,
            None => {
                return Err(Error::UnsupportedPlatform);
            },
        };
        if !cfg.shared.is_platform_supported(current) {
            return Err(Error::ConfigDoesNotSupportPlatform);
        }
        let mut ctx = engine.duplicate();
        match define_variables(&mut ctx, &config_level(), &cfg.shared.variables) {
            Ok(_) => {},
            Err(e) => {
                return Err(Error::Template(e));
            },
        }
        let mut builder = ActionsBuilder::default();
        let n = cfg.targets.len();
        let mut i: usize = 0;
        while i < n
            invariant
                n == cfg.targets@.len(),
                i <= n,
                cwd.wf(),
                builder.wf(),
                platform == Some(current),
                spec_platform_supported(cfg.shared.runs_on, current),
                spec_define_vars(
                    engine@,
                    config_namespace(),
                    definition_models(cfg.shared.variables@),
                ) == Ok::<Map<Seq<Seq<char>>, Seq<char>>, (Map<Seq<Seq<char>>, Seq<char>>, crate::template::ErrorModel)>(ctx@),
                ordered_producers(action_models(builder.acts@)),
                (forall|k: int|
                    0 <= k < i ==> !spec_platform_supported(
                        #[trigger] cfg.targets@[k].shared.runs_on,
                        current,
                    )) ==> builder.acts@.len() == 0,
            decreases n - i,
        {
            let ghost c1 = ctx@;
            match process_target(&mut builder, &ctx, &cfg.targets[i], current, cwd) {
                Ok(_) => {},
                Err(e) => {
                    proof {
                        let t = cfg.targets@[i as int];
                        // an error means the target was included, and pins
                        // the error to what that target's compilation says
                        assert(spec_platform_supported(t.shared.runs_on, current));
                        let dv = spec_define_vars(
                            c1,
                            target_namespace(),
                            definition_models(t.shared.variables@),
                        );
                        if dv is Err {
                            assert(e matches Error::Template(te) && target_template_failure(
                                c1,
                                t,
                                te@,
                            ));
                        } else {
                            let c2 = dv->Ok_0;
                            let sr = spec_render_str(c2, t.path@);
                            if sr is Err {
                                assert(e matches Error::Template(te) && target_template_failure(
                                    c1,
                                    t,
                                    te@,
                                ));
                            } else {
                                let src = sr->Ok_0;
                                assert(target_source_path(c1, t) == Some(src));
                                if e is SourceDoesNotExist {
                                    assert(e matches Error::SourceDoesNotExist { path } && path@
                                        == src);
                                } else {
                                    let dr = spec_render_str(c2, t.target_location@);
                                    if dr is Err {
                                        assert(e matches Error::Template(te)
                                            && target_template_failure(c1, t, te@));
                                    } else {
                                        assert(e is Io);
                                        assert(t.link_type is Auto && !spec_wants_template(
                                            t.is_template,
                                            src,
                                        ));
                                    }
                                }
                            }
                        }
                    }
                    return Err(e);
                },
            }
            i = i + 1;
        }
        Ok(builder.build())
    }
}

/// The kind of a filesystem watcher event, reduced to what the
/// redeploy decision needs.
#[derive(Debug, PartialEq, Eq, Clone, Copy, Structural)]
pub enum WatchEventKind {
    Create,
    Remove,
    Modify,
    Any,
    Other,
}

/// What a watcher event calls for.
#[derive(Debug, PartialEq, Eq, Clone, Copy, Structural)]
pub enum WatchReaction {
    /// The event is not a content change; do nothing.
    Ignore,
    /// A change with no specific paths: re-run the whole graph.
    RunAll,
    /// A change naming paths: re-run only the actions transitively
    /// dependent on them.
    RunDependents,
}

/// Decides how to react to a watcher event: a create, remove, modify
/// or unclassified change triggers a redeploy — of the dependent
/// sub-graph when the event names the changed paths, of the whole
/// graph when it does not — and anything else is ignored.
pub fn watch_reaction(kind: WatchEventKind, has_paths: bool) -> (r: WatchReaction)
    ensures
        r == (match kind {
            WatchEventKind::Other => WatchReaction::Ignore,
            _ => if has_paths {
                WatchReaction::RunDependents
            } else {
                WatchReaction::RunAll
            },
        }),
{
    match kind {
        WatchEventKind::Other => WatchReaction::Ignore,
        _ => if has_paths {
            WatchReaction::RunDependents
        } else {
            WatchReaction::RunAll
        },
    }
}

/// The path a watcher should observe for an action, if any: the
/// source path of a copy or template expansion. A link's source is
/// not watched, and a directory creation reads nothing.
pub open spec fn spec_watch_source(a: ActionModel) -> Option<Seq<char>> {
    match a {
        ActionModel::Copy { from, .. } => match from {
            LocModel::Path(p) => Some(p),
            LocModel::InMemory(_) => None,
        },
        ActionModel::TemplateExpand { target, .. } => match target {
            LocModel::Path(p) => Some(p),
            LocModel::InMemory(_) => None,
        },
        _ => None,
    }
}

/// The watched source paths of an action list, in order.
pub open spec fn spec_watch_sources(acts: Seq<ActionModel>) -> Seq<Seq<char>>
    decreases acts.len(),
{
    if acts.len() == 0 {
        Seq::empty()
    } else {
        spec_watch_sources(acts.drop_last()) + (match spec_watch_source(acts.last()) {
            Some(p) => seq![p],
            None => Seq::empty(),
        })
    }
}

/// Whether a target's rendered source path equals the given path.
pub open spec fn target_matches(t: Target, c: Map<Seq<Seq<char>>, Seq<char>>, tp: Seq<char>) -> bool {
    spec_render_str(c, t.path@) == Ok::<Seq<char>, crate::template::ErrorModel>(tp)
}

/// The index of the first target whose rendered source path equals
/// the given path, if any.
pub open spec fn spec_first_matching_target(
    targets: Seq<Target>,
    c: Map<Seq<Seq<char>>, Seq<char>>,
    tp: Seq<char>,
) -> Option<int>
    decreases targets.len(),
{
    if targets.len() == 0 {
        None
    } else if target_matches(targets[0], c, tp) {
        Some(0)
    } else {
        match spec_first_matching_target(targets.drop_first(), c, tp) {
            Some(k) => Some(k + 1),
            None => None,
        }
    }
}

proof fn lemma_first_match_skip(
    targets: Seq<Target>,
    c: Map<Seq<Seq<char>>, Seq<char>>,
    tp: Seq<char>,
    i: int,
)
    requires
        0 <= i <= targets.len(),
        forall|k: int| 0 <= k < i ==> !target_matches(#[trigger] targets[k], c, tp),
    ensures
        spec_first_matching_target(targets, c, tp) == (match spec_first_matching_target(
            targets.skip(i),
            c,
            tp,
        ) {
            Some(k) => Some(k + i),
            None => None::<int>,
        }),
    decreases i,
{
    if i == 0 {
        assert(targets.skip(0) =~= targets);
    } else {
        assert(targets.len() > 0);
        assert(!target_matches(targets[0], c, tp));
        assert forall|k: int|
            0 <= k < i - 1 implies !target_matches(#[trigger] targets.drop_first()[k], c, tp) by {
            assert(targets.drop_first()[k] == targets[k + 1]);
        }
        lemma_first_match_skip(targets.drop_first(), c, tp, i - 1);
        assert(targets.drop_first().skip(i - 1) =~= targets.skip(i));
    }
}

/// The context a file is expanded against: the base context with the
/// configuration's variables defined under the `config` namespace,
/// and — when some target's rendered source path names the expanded
/// file — that first matching target's variables under the `target`
/// namespace.
pub fn context_for_expand(cfg: &Root, engine: &Context, target_path: &str) -> (r: Result<
    Context,
    Error,
>)
    ensures
        match spec_define_vars(
            engine@,
            config_namespace(),
            definition_models(cfg.shared.variables@),
        ) {
            Err((m2, e)) => (r matches Err(Error::Template(te)) && te@ == e),
            Ok(c1) => match spec_first_matching_target(cfg.targets@, c1, target_path@) {
                None => (r matches Ok(c) && c@ == c1),
                Some(k) => match spec_define_vars(
                    c1,
                    target_namespace(),
                    definition_models(cfg.targets@[k].shared.variables@),
                ) {
                    Ok(c2) => (r matches Ok(c) && c@ == c2),
                    Err((m3, e)) => (r matches Err(Error::Template(te)) && te@ == e),
                },
            },
        },
{
    let mut ctx = engine.duplicate();
    match define_variables(&mut ctx, &config_level(), &cfg.shared.variables) {
        Ok(_) => {},
        Err(e) => {
            return Err(Error::Template(e));
        },
    }
    let ghost c1 = ctx@;
    let n = cfg.targets.len();
    let mut i: usize = 0;
    while i < n
        invariant
            n == cfg.targets@.len(),
            i <= n,
            ctx@ == c1,
            spec_define_vars(
                engine@,
                config_namespace(),
                definition_models(cfg.shared.variables@),
            ) == Ok::<
                Map<Seq<Seq<char>>, Seq<char>>,
                (Map<Seq<Seq<char>>, Seq<char>>, crate::template::ErrorModel),
            >(c1),
            forall|k: int|
                0 <= k < i ==> !target_matches(#[trigger] cfg.targets@[k], c1, target_path@),
        decreases n - i,
    {
        let matched = match cfg.targets[i].path.render(&ctx) {
            Ok(s) => crate::strutil::str_eq(s.as_str(), target_path),
            Err(_) => false,
        };
        if matched {
            proof {
                lemma_first_match_skip(cfg.targets@, c1, target_path@, i as int);
                assert(cfg.targets@.skip(i as int)[0] == cfg.targets@[i as int]);
                assert(spec_first_matching_target(cfg.targets@, c1, target_path@) == Some(
                    i as int,
                ));
            }
            match define_variables(&mut ctx, &target_level(), &cfg.targets[i].shared.variables) {
                Ok(_) => {
                    return Ok(ctx);
                },
                Err(e) => {
                    return Err(Error::Template(e));
                },
            }
        }
        i = i + 1;
    }
    proof {
        lemma_first_match_skip(cfg.targets@, c1, target_path@, n as int);
        assert(cfg.targets@.skip(n as int) =~= Seq::<Target>::empty());
    }
    Ok(ctx)
}

/// The watched sources of a prefix of an action list are a prefix of
/// the whole list's watched sources.
proof fn lemma_watch_prefix(s: Seq<ActionModel>, i: int)
    requires
        0 <= i <= s.len(),
    ensures
        spec_watch_sources(s).len() >= spec_watch_sources(s.take(i)).len(),
        spec_watch_sources(s.take(i)) =~= spec_watch_sources(s).take(
            spec_watch_sources(s.take(i)).len() as int,
        ),
    decreases s.len() - i,
{
    if i == s.len() {
        assert(s.take(i) =~= s);
    } else {
        lemma_watch_prefix(s, i + 1);
        assert(s.take(i + 1).drop_last() =~= s.take(i));
        assert(s.take(i + 1).last() == s[i]);
    }
}

/// The spec-level image of a path list.
pub open spec fn path_models(s: Seq<AbsPathBuf>) -> Seq<Seq<char>> {
    s.map(|i: int, p: AbsPathBuf| p@)
}

/// The path dependencies of an action list, in order: the paths read
/// by its copies, template expansions and links.
pub open spec fn spec_file_roots(acts: Seq<ActionModel>) -> Seq<Seq<char>>
    decreases acts.len(),
{
    if acts.len() == 0 {
        Seq::empty()
    } else {
        spec_file_roots(acts.drop_last()) + (match dep_of(acts.last()) {
            Some(LocModel::Path(p)) => seq![p],
            _ => Seq::empty(),
        })
    }
}

proof fn lemma_count_all_false(s: Seq<bool>)
    requires
        forall|j: int| 0 <= j < s.len() ==> !s[j],
    ensures
        count_true(s) == 0,
    decreases s.len(),
{
    if s.len() > 0 {
        lemma_count_all_false(s.drop_last());
    }
}

} // verus!
