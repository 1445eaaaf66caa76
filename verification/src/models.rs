use vstd::prelude::*;

use crate::strmap::StrMap;
use crate::text::concat;
use crate::value::{Value, ValueModel};

verus! {

/// What went wrong. Errors of the file system, of reading JSON and TOML and
/// of walking directories come to the library as their message.
pub enum MonodepError {
    General(String),
    Io(String),
    Json(String),
    Toml(String),
    Walk(String),
}

/// An error as the specifications see it.
pub enum ErrorView {
    General(Seq<char>),
    Io(Seq<char>),
    Json(Seq<char>),
    Toml(Seq<char>),
    Walk(Seq<char>),
}

impl View for MonodepError {
    type V = ErrorView;

    open spec fn view(&self) -> ErrorView {
        match self {
            MonodepError::General(s) => ErrorView::General(s@),
            MonodepError::Io(s) => ErrorView::Io(s@),
            MonodepError::Json(s) => ErrorView::Json(s@),
            MonodepError::Toml(s) => ErrorView::Toml(s@),
            MonodepError::Walk(s) => ErrorView::Walk(s@),
        }
    }
}

/// A text result as the specifications see it.
pub open spec fn text_result(r: Result<String, MonodepError>) -> Result<Seq<char>, ErrorView> {
    match r {
        Ok(s) => Ok(s@),
        Err(e) => Err(e@),
    }
}

impl MonodepError {
    /// The text the command line prints after `monodep: `.
    pub fn message(&self) -> (m: String)
        ensures
            m@ == match self {
                MonodepError::General(s) => s@,
                MonodepError::Io(s) => s@,
                MonodepError::Json(s) => "JSON error: "@ + s@,
                MonodepError::Toml(s) => "TOML error: "@ + s@,
                MonodepError::Walk(s) => "Walk error: "@ + s@,
            },
    {
        match self {
            MonodepError::General(s) => s.clone(),
            MonodepError::Io(s) => s.clone(),
            MonodepError::Json(s) => concat("JSON error: ", s.as_str()),
            MonodepError::Toml(s) => concat("TOML error: ", s.as_str()),
            MonodepError::Walk(s) => concat("Walk error: ", s.as_str()),
        }
    }

    /// A copy of the error with the same variant and text.
    pub fn duplicate(&self) -> (e: MonodepError)
        ensures
            e@ == self@,
    {
        match self {
            MonodepError::General(s) => MonodepError::General(s.clone()),
            MonodepError::Io(s) => MonodepError::Io(s.clone()),
            MonodepError::Json(s) => MonodepError::Json(s.clone()),
            MonodepError::Toml(s) => MonodepError::Toml(s.clone()),
            MonodepError::Walk(s) => MonodepError::Walk(s.clone()),
        }
    }
}

/// Whether `e` is a general error whose text is `msg`.
pub open spec fn is_general(e: MonodepError, msg: Seq<char>) -> bool {
    e@ == ErrorView::General(msg)
}

/// Which dependency groups take part in a sync, and whether the package
/// manager's own install step runs.
#[derive(Clone, Copy, Debug)]
pub struct SyncOptions {
    pub include_dev: bool,
    pub include_optional: bool,
    pub skip_install: bool,
}

impl SyncOptions {
    /// The defaults used by the commands that take no flags: every group,
    /// with the install step.
    pub fn new() -> (opts: Self)
        ensures
            opts.include_dev,
            opts.include_optional,
            !opts.skip_install,
    {
        SyncOptions { include_dev: true, include_optional: true, skip_install: false }
    }
}

/// The options of the `install`, `sync` and `plan` commands: `--production`
/// leaves out development dependencies, `--no-optional` optional ones.
pub fn make_options(production: bool, no_optional: bool, skip_install: bool) -> (opts: SyncOptions)
    ensures
        opts.include_dev == !production,
        opts.include_optional == !no_optional,
        opts.skip_install == skip_install,
{
    SyncOptions { include_dev: !production, include_optional: !no_optional, skip_install }
}

/// One entry of a dependency group of a `package.json`.
pub struct ManifestDependency {
    pub name: String,
    pub spec: String,
    pub group: String,
    pub optional: bool,
}

/// A manifest dependency as the specifications see it.
pub struct DependencyView {
    pub name: Seq<char>,
    pub spec: Seq<char>,
    pub group: Seq<char>,
    pub optional: bool,
}

impl View for ManifestDependency {
    type V = DependencyView;

    open spec fn view(&self) -> DependencyView {
        DependencyView {
            name: self.name@,
            spec: self.spec@,
            group: self.group@,
            optional: self.optional,
        }
    }
}

/// A workspace that was found under the monorepo's config roots.
pub struct WorkspacePackage {
    pub name: String,
    pub path: String,
    pub manifest: Value,
}

pub struct WorkspaceView {
    pub name: Seq<char>,
    pub path: Seq<char>,
    pub manifest: ValueModel,
}

impl View for WorkspacePackage {
    type V = WorkspaceView;

    open spec fn view(&self) -> WorkspaceView {
        WorkspaceView { name: self.name@, path: self.path@, manifest: self.manifest@ }
    }
}

impl WorkspacePackage {
    pub fn duplicate(&self) -> (w: WorkspacePackage)
        ensures
            w@ == self@,
    {
        WorkspacePackage {
            name: self.name.clone(),
            path: self.path.clone(),
            manifest: self.manifest.deep_clone(),
        }
    }
}

/// A dependency of a workspace that is served from the monorepo itself:
/// `kind` is `"workspace"` for a `workspace:` spec and `"file"` for a
/// `file:` spec.
pub struct ResolvedDependency {
    pub kind: String,
    pub name: String,
    pub spec: String,
    pub group: String,
    pub optional: bool,
    pub version: Option<String>,
    pub target_path: Option<String>,
}

pub struct ResolvedView {
    pub kind: Seq<char>,
    pub name: Seq<char>,
    pub spec: Seq<char>,
    pub group: Seq<char>,
    pub optional: bool,
    pub version: Option<Seq<char>>,
    pub target_path: Option<Seq<char>>,
}

pub open spec fn opt_view(s: Option<String>) -> Option<Seq<char>> {
    match s {
        Some(t) => Some(t@),
        None => None,
    }
}

pub fn clone_opt(s: &Option<String>) -> (r: Option<String>)
    ensures
        opt_view(r) == opt_view(*s),
{
    match s {
        Some(t) => Some(t.clone()),
        None => None,
    }
}

impl View for ResolvedDependency {
    type V = ResolvedView;

    open spec fn view(&self) -> ResolvedView {
        ResolvedView {
            kind: self.kind@,
            name: self.name@,
            spec: self.spec@,
            group: self.group@,
            optional: self.optional,
            version: opt_view(self.version),
            target_path: opt_view(self.target_path),
        }
    }
}

impl ResolvedDependency {
    pub fn duplicate(&self) -> (r: ResolvedDependency)
        ensures
            r@ == self@,
    {
        ResolvedDependency {
            kind: self.kind.clone(),
            name: self.name.clone(),
            spec: self.spec.clone(),
            group: self.group.clone(),
            optional: self.optional,
            version: clone_opt(&self.version),
            target_path: clone_opt(&self.target_path),
        }
    }
}

/// What the deduplication did for one ecosystem.
#[derive(Clone, Copy, Debug)]
pub struct DedupStats {
    pub deduplicated_packages: usize,
    pub duplicate_copies_saved: usize,
    pub files_hardlinked: usize,
    pub packages_scanned: usize,
}

/// What the deduplication did, and where its store is when there is one.
pub struct DedupResult {
    pub node: DedupStats,
    pub python: DedupStats,
    pub store: Option<String>,
}

/// The outcome of planning a sync: the selected workspaces, their local
/// links and the package manager; `dedup` is filled once a sync ran.
pub struct SyncPlan {
    pub options: SyncOptions,
    pub package_manager: String,
    pub root: String,
    pub selected_workspaces: Vec<String>,
    pub workspace_links: StrMap<StrMap<ResolvedDependency>>,
    pub workspaces: StrMap<String>,
    pub dedup: Option<DedupResult>,
}

impl SyncPlan {
    /// The plan a sync reports: the plan it ran, unchanged in every field,
    /// with what deduplication did.
    pub fn with_dedup(self, dedup: DedupResult) -> (p: SyncPlan)
        ensures
            p.options == self.options,
            p.package_manager == self.package_manager,
            p.root == self.root,
            p.selected_workspaces == self.selected_workspaces,
            p.workspace_links == self.workspace_links,
            p.workspaces == self.workspaces,
            p.dedup == Some(dedup),
    {
        SyncPlan { dedup: Some(dedup), ..self }
    }
}

} // verus!
