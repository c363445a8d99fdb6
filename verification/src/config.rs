//! The configuration data model: a root of global options and a list
//! of targets to deploy. A configuration reaches this crate already
//! decoded from its on-disk format.

use vstd::prelude::*;
use crate::abspath::{parent_of, spec_parent};
use crate::fsio::{fs_exists, fs_is_dir};
use crate::template::Templated;

verus! {

/// An operating system a configuration or target can be restricted
/// to.
#[derive(Debug, PartialEq, Eq, Hash, Clone, Copy, Structural)]
pub enum Platform {
    Windows,
    MacOs,
    Linux,
}

/// Either one value or a list of them.
#[derive(Debug, PartialEq, Eq, Hash, Clone)]
pub enum OneOrMany<T> {
    One(T),
    Many(Vec<T>),
}

/// Options shared by the configuration root and by each target:
/// scoped variables, in declaration order, and an optional platform
/// restriction.
#[derive(Debug, Clone, PartialEq, Eq)]
pub struct MultiScopedOptions {
    /// Scoped variable definitions; a later definition may reference
    /// an earlier one.
    pub variables: Vec<(String, Templated)>,
    /// The platforms the owner supports; `None` means all of them.
    pub runs_on: Option<OneOrMany<Platform>>,
}

/// How a target is deployed.
#[derive(Debug, PartialEq, Eq, Clone, Copy, Structural)]
pub enum DeployType {
    /// A soft link for a directory source, a hard link otherwise.
    Auto,
    /// A plain copy.
    Copy,
    /// A link of the given kind.
    Link(LinkType),
}

/// The kind of a link.
#[derive(Debug, PartialEq, Eq, Clone, Copy, Structural)]
pub enum LinkType {
    Soft,
    Hard,
}

/// One declared source-to-destination deployment unit.
#[derive(Debug, Clone, PartialEq, Eq)]
pub struct Target {
    /// Templated path of the file or directory to deploy.
    pub path: Templated,
    /// Target-specific options; its variables live under the `target`
    /// namespace.
    pub shared: MultiScopedOptions,
    /// Templated path of the location to deploy to.
    pub target_location: Templated,
    /// Explicit deployment kind.
    pub link_type: DeployType,
    /// Explicit choice whether the source is a template; if absent,
    /// the source is a template exactly when its path ends in `.in`.
    pub is_template: Option<bool>,
}

/// A whole configuration: global options, whose variables live under
/// the `config` namespace, and the targets to deploy.
#[derive(Debug, Clone, PartialEq, Eq)]
pub struct Root {
    pub shared: MultiScopedOptions,
    pub targets: Vec<Target>,
}

impl Default for MultiScopedOptions {
    /// No variables and no platform restriction.
    fn default() -> (r: Self)
        ensures
            r.variables@ =~= Seq::<(String, Templated)>::empty(),
            r.runs_on is None,
    {
        MultiScopedOptions { variables: Vec::new(), runs_on: None }
    }
}

impl Default for DeployType {
    fn default() -> (r: Self)
        ensures
            r is Auto,
    {
        DeployType::Auto
    }
}

impl Default for Root {
    /// No global options and no targets.
    fn default() -> (r: Self)
        ensures
            r.shared.variables@ =~= Seq::<(String, Templated)>::empty(),
            r.shared.runs_on is None,
            r.targets@ =~= Seq::<Target>::empty(),
    {
        Root { shared: MultiScopedOptions::default(), targets: Vec::new() }
    }
}

impl Target {
    /// A target that deploys `path` to `target_location` with all
    /// options left at their defaults.
    pub fn new(path: String, target_location: String) -> (r: Self)
        ensures
            r.path@ == path@,
            r.target_location@ == target_location@,
            r.shared.variables@ =~= Seq::<(String, Templated)>::empty(),
            r.shared.runs_on is None,
            r.link_type is Auto,
            r.is_template is None,
    {
        Target {
            path: Templated::new(path),
            shared: MultiScopedOptions::default(),
            target_location: Templated::new(target_location),
            link_type: DeployType::default(),
            is_template: None,
        }
    }
}

/// Whether options with the given platform restriction support the
/// given platform.
pub open spec fn spec_platform_supported(
    runs_on: Option<OneOrMany<Platform>>,
    target: Platform,
) -> bool {
    match runs_on {
        Some(OneOrMany::One(p)) => p == target,
        Some(OneOrMany::Many(ps)) => ps@.contains(target),
        None => true,
    }
}

/// Looks for a configuration file in a directory, trying
/// `dotloy.yaml` then `dotloy.yml`, and returns the first that
/// exists.
pub fn find_config_in_dir(dir: &str) -> (r: Option<String>)
    ensures
        r matches Some(p) ==> p@ == dir@ + "/dotloy.yaml"@ || p@ == dir@ + "/dotloy.yml"@,
{
    let mut yaml = dir.to_owned();
    yaml.append("/dotloy.yaml");
    if fs_exists(yaml.as_str()) {
        return Some(yaml);
    }
    let mut yml = dir.to_owned();
    yml.append("/dotloy.yml");
    if fs_exists(yml.as_str()) {
        return Some(yml);
    }
    None
}

/// The directory a configuration path belongs to: the path itself if
/// it is a directory, else its parent.
pub fn resolve_config_dir(p: &str) -> (r: Option<String>)
    ensures
        match r {
            Some(x) => x@ == p@ || spec_parent(p@) == Some(x@),
            None => spec_parent(p@) is None,
        },
{
    if fs_is_dir(p) {
        Some(p.to_owned())
    } else {
        parent_of(p)
    }
}

impl MultiScopedOptions {
    /// Whether these options allow running on the given platform. No
    /// restriction allows every platform.
    pub fn is_platform_supported(&self, target: Platform) -> (r: bool)
        ensures
            r == spec_platform_supported(self.runs_on, target),
    {
        match &self.runs_on {
            Some(OneOrMany::One(p)) => *p == target,
            Some(OneOrMany::Many(ps)) => {
                let n = ps.len();
                let mut i: usize = 0;
                while i < n
                    invariant
                        n == ps@.len(),
                        i <= n,
                        self.runs_on == Some(OneOrMany::Many(*ps)),
                        forall|j: int| 0 <= j < i ==> ps@[j] != target,
                    decreases n - i,
                {
                    if ps[i] == target {
                        proof {
                            assert(ps@.contains(target));
                        }
                        return true;
                    }
                    i = i + 1;
                }
                false
            },
            None => true,
        }
    }
}

} // verus!
