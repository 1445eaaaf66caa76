use vstd::prelude::*;

use crate::manifest::{bin_entries, bin_target, closure_for_filters, dependency_entries, deps_view, last_unknown, manifest_deps, selected_by, strings_view, unknown_filter_message};
use crate::models::{
    is_general, DedupResult, DependencyView, ErrorView, MonodepError, ResolvedDependency, ResolvedView, SyncOptions, SyncPlan,
    WorkspacePackage, WorkspaceView,
};
use crate::strmap::{first_error, last_found, lemma_first_error_prefix, lemma_sorted_keys_unique, sorted_keys, StrMap};
use crate::text::{lemma_str_lt_asymmetric, parent_or_current, path_parent, parent_path, sort_strings, sorted_texts, texts_of, chars_of, concat, concat3, has_prefix, join, path_join, relative_to_root, starts_with, str_eq, str_lt, string_from_chars, strip_path_prefix, stripped_path};
use crate::value::{find_key, Member, Value, ValueModel};

verus! {

broadcast use vstd::seq::group_seq_axioms;

// ── Resolving local dependencies ────────────────────────────────────

/// What the file system showed of the target of a `file:` dependency:
/// `path` is the workspace directory joined with the text after `file:`,
/// `canonical` its canonical form when it exists, and `manifest` the
/// target's `package.json` (absent, or read and parsed, or the error of
/// doing so).
pub struct FileTarget {
    pub path: String,
    pub canonical: Option<String>,
    pub manifest: Option<Result<Value, MonodepError>>,
}

/// The first probe of `path` among `targets`.
pub open spec fn find_target(targets: Seq<FileTarget>, path: Seq<char>) -> Option<FileTarget>
    decreases targets.len(),
{
    if targets.len() == 0 {
        None
    } else {
        match find_target(targets.drop_last(), path) {
            Some(t) => Some(t),
            None => if targets.last().path@ == path {
                Some(targets.last())
            } else {
                None
            },
        }
    }
}

pub open spec fn not_discovered_message(name: Seq<char>) -> Seq<char> {
    "Workspace dependency '"@ + name + "' was not discovered"@
}

pub open spec fn target_not_found_message(name: Seq<char>) -> Seq<char> {
    "File dependency '"@ + name + "' target not found"@
}

pub open spec fn missing_manifest_message(name: Seq<char>, manifest_path: Seq<char>) -> Seq<char> {
    "File dependency '"@ + name + "' points to missing package.json: "@ + manifest_path
}

/// What one dependency of a workspace at `ws_path` contributes to its
/// local links: a `workspace:` dependency links to the workspace of that
/// name; a `file:` dependency links to the canonical target directory and
/// records the target's version (`"0.0.0"` when it has none). Any other
/// dependency contributes nothing. A target that was not probed counts as
/// not found.
pub open spec fn local_step(
    ws_path: Seq<char>,
    workspaces: StrMap<WorkspacePackage>,
    targets: Seq<FileTarget>,
    d: crate::models::DependencyView,
) -> Result<Option<(Seq<char>, ResolvedView)>, ErrorView> {
    if has_prefix(d.spec, "workspace:"@) {
        if workspaces.has(d.name) {
            Ok(
                Some(
                    (
                        d.name,
                        ResolvedView {
                            kind: "workspace"@,
                            name: d.name,
                            spec: d.spec,
                            group: d.group,
                            optional: d.optional,
                            version: None,
                            target_path: Some(workspaces.value_of(d.name)@.path),
                        },
                    ),
                ),
            )
        } else {
            Err(ErrorView::General(not_discovered_message(d.name)))
        }
    } else if has_prefix(d.spec, "file:"@) {
        match find_target(targets, path_join(ws_path, d.spec.skip(5))) {
            Some(t) => match t.canonical {
                Some(c) => match t.manifest {
                    None => Err(
                        ErrorView::General(
                            missing_manifest_message(d.name, path_join(c@, "package.json"@)),
                        ),
                    ),
                    Some(Err(e)) => Err(e@),
                    Some(Ok(m)) => Ok(
                        Some(
                            (
                                d.name,
                                ResolvedView {
                                    kind: "file"@,
                                    name: d.name,
                                    spec: d.spec,
                                    group: d.group,
                                    optional: d.optional,
                                    version: Some(
                                        match m@.field_text("version"@) {
                                            Some(v) => v,
                                            None => "0.0.0"@,
                                        },
                                    ),
                                    target_path: Some(c@),
                                },
                            ),
                        ),
                    ),
                },
                None => Err(ErrorView::General(target_not_found_message(d.name))),
            },
            None => Err(ErrorView::General(target_not_found_message(d.name))),
        }
    } else {
        Ok(None)
    }
}

/// The steps of resolving the local dependencies of workspace `w`.
pub open spec fn local_steps(
    w: WorkspaceView,
    workspaces: StrMap<WorkspacePackage>,
    opts: SyncOptions,
    targets: Seq<FileTarget>,
) -> Seq<Result<Option<(Seq<char>, ResolvedView)>, ErrorView>> {
    manifest_deps(w.manifest, opts).map_values(
        |d: crate::models::DependencyView| local_step(w.path, workspaces, targets, d),
    )
}

fn find_target_exec(targets: &Vec<FileTarget>, path: &str) -> (r: Option<usize>)
    ensures
        r is Some <==> find_target(targets@, path@) is Some,
        r matches Some(i) ==> i < targets@.len() && find_target(targets@, path@) == Some(
            targets@[i as int],
        ),
{
    let mut i: usize = 0;
    while i < targets.len()
        invariant
            i <= targets@.len(),
            find_target(targets@.take(i as int), path@) is None,
        decreases targets@.len() - i,
    {
        proof {
            assert(targets@.take(i + 1).drop_last() =~= targets@.take(i as int));
        }
        if str_eq(targets[i].path.as_str(), path) {
            proof {
                lemma_find_target_prefix(targets@, i + 1);
            }
            return Some(i);
        }
        i = i + 1;
    }
    proof {
        assert(targets@.take(targets@.len() as int) =~= targets@);
    }
    None
}

proof fn lemma_find_target_prefix(targets: Seq<FileTarget>, n: int)
    requires
        0 <= n <= targets.len(),
        find_target(targets.take(n), targets[n - 1].path@) is Some || n == 0,
    ensures
        n > 0 ==> find_target(targets, targets[n - 1].path@) == find_target(
            targets.take(n),
            targets[n - 1].path@,
        ),
    decreases targets.len(),
{
    if n > 0 && n < targets.len() {
        assert(targets.drop_last().take(n) =~= targets.take(n));
        lemma_find_target_prefix(targets.drop_last(), n);
    } else if n == targets.len() {
        assert(targets.take(n) =~= targets);
    }
}

fn resolve_one(
    workspace: &WorkspacePackage,
    workspaces: &StrMap<WorkspacePackage>,
    targets: &Vec<FileTarget>,
    dep: &crate::models::ManifestDependency,
) -> (r: Result<Option<ResolvedDependency>, MonodepError>)
    ensures
        match local_step(workspace.path@, *workspaces, targets@, dep@) {
            Err(e) => r matches Err(x) && x@ == e,
            Ok(None) => r matches Ok(None),
            Ok(Some((n, v))) => r matches Ok(Some(rd)) && rd@ == v && n == dep.name@,
        },
{
    if starts_with(dep.spec.as_str(), "workspace:") {
        match workspaces.get(dep.name.as_str()) {
            Some(target) => Ok(
                Some(
                    ResolvedDependency {
                        kind: "workspace".to_owned(),
                        name: dep.name.clone(),
                        spec: dep.spec.clone(),
                        group: dep.group.clone(),
                        optional: dep.optional,
                        version: None,
                        target_path: Some(target.path.clone()),
                    },
                ),
            ),
            None => Err(
                MonodepError::General(
                    concat3("Workspace dependency '", dep.name.as_str(), "' was not discovered"),
                ),
            ),
        }
    } else if starts_with(dep.spec.as_str(), "file:") {
        let chars = chars_of(dep.spec.as_str());
        proof {
            reveal_strlit("file:");
        }
        let relative = string_from_chars(&chars, 5, chars.len());
        assert(relative@ =~= dep.spec@.skip(5));
        let p = join(workspace.path.as_str(), relative.as_str());
        let not_found = concat3("File dependency '", dep.name.as_str(), "' target not found");
        match find_target_exec(targets, p.as_str()) {
            Some(i) => {
                let t = &targets[i];
                match &t.canonical {
                    Some(c) => match &t.manifest {
                        None => {
                            let mp = join(c.as_str(), "package.json");
                            let head = concat3(
                                "File dependency '",
                                dep.name.as_str(),
                                "' points to missing package.json: ",
                            );
                            Err(MonodepError::General(concat(head.as_str(), mp.as_str())))
                        },
                        Some(Err(e)) => Err(e.duplicate()),
                        Some(Ok(m)) => {
                            let version = match m.get_str("version") {
                                Some(v) => v.clone(),
                                None => "0.0.0".to_owned(),
                            };
                            Ok(
                                Some(
                                    ResolvedDependency {
                                        kind: "file".to_owned(),
                                        name: dep.name.clone(),
                                        spec: dep.spec.clone(),
                                        group: dep.group.clone(),
                                        optional: dep.optional,
                                        version: Some(version),
                                        target_path: Some(c.clone()),
                                    },
                                ),
                            )
                        },
                    },
                    None => Err(MonodepError::General(not_found)),
                }
            },
            None => Err(MonodepError::General(not_found)),
        }
    } else {
        Ok(None)
    }
}

/// The local links of a workspace, keyed by dependency name: the first
/// error among its dependencies stops the resolution; a later dependency
/// of the same name replaces an earlier one.
pub fn resolve_local_deps(
    workspace: &WorkspacePackage,
    workspaces: &StrMap<WorkspacePackage>,
    options: &SyncOptions,
    targets: &Vec<FileTarget>,
) -> (r: Result<StrMap<ResolvedDependency>, MonodepError>)
    ensures
        ({
            let steps = local_steps(workspace@, *workspaces, *options, targets@);
            &&& first_error(steps) matches Some(e) ==> r matches Err(x) && x@ == e
            &&& first_error(steps) is None ==> r is Ok
            &&& r matches Ok(links) ==> forall|k: Seq<char>| #[trigger]
                links.has(k) <==> last_found(steps, k) is Some
            &&& r matches Ok(links) ==> forall|k: Seq<char>| #[trigger]
                links.has(k) ==> links.value_of(k)@ == last_found(steps, k)->0
        }),
{
    let deps = dependency_entries(&workspace.manifest, options);
    let ghost steps = local_steps(workspace@, *workspaces, *options, targets@);
    let ghost dv = deps_view(deps@);
    assert(steps.len() == deps@.len());
    let mut links: StrMap<ResolvedDependency> = StrMap::new();
    let mut i: usize = 0;
    while i < deps.len()
        invariant
            steps == local_steps(workspace@, *workspaces, *options, targets@),
            dv == deps_view(deps@),
            dv == manifest_deps(workspace@.manifest, *options),
            steps.len() == deps@.len(),
            i <= deps@.len(),
            first_error(steps.take(i as int)) is None,
            forall|k: Seq<char>| #[trigger] links.has(k) <==> last_found(steps.take(i as int), k) is Some,
            forall|k: Seq<char>| #[trigger]
                links.has(k) ==> links.value_of(k)@ == last_found(steps.take(i as int), k)->0,
        decreases deps@.len() - i,
    {
        let ghost nxt = steps.take(i + 1);
        proof {
            assert(nxt.drop_last() =~= steps.take(i as int));
            assert(dv[i as int] == deps@[i as int]@);
            assert(steps[i as int] == local_step(workspace@.path, *workspaces, targets@, deps@[i as int]@));
            assert(nxt.last() == steps[i as int]);
        }
        match resolve_one(workspace, workspaces, targets, &deps[i]) {
            Err(e) => {
                proof {
                    assert(steps.subrange(0, nxt.len() as int) =~= nxt);
                    lemma_first_error_prefix(steps, nxt);
                }
                return Err(e);
            },
            Ok(None) => {},
            Ok(Some(rd)) => {
                links.insert(deps[i].name.clone(), rd);
            },
        }
        i = i + 1;
    }
    assert(steps.take(deps@.len() as int) =~= steps);
    Ok(links)
}


/// The directories the `file:` dependencies among `deps` of a workspace at
/// `ws_path` point to, in dependency order, before they are resolved.
pub open spec fn dep_file_paths(ws_path: Seq<char>, deps: Seq<DependencyView>) -> Seq<Seq<char>>
    decreases deps.len(),
{
    if deps.len() == 0 {
        Seq::empty()
    } else {
        let d = deps.last();
        dep_file_paths(ws_path, deps.drop_last()) + if has_prefix(d.spec, "file:"@) {
            seq![path_join(ws_path, d.spec.skip(5))]
        } else {
            Seq::empty()
        }
    }
}

/// The `file:` target paths of the first `n` workspaces, in name order.
pub open spec fn file_paths_of(ws: StrMap<WorkspacePackage>, opts: SyncOptions, n: int) -> Seq<Seq<char>>
    decreases n,
{
    if n <= 0 {
        Seq::empty()
    } else {
        file_paths_of(ws, opts, n - 1) + dep_file_paths(
            ws.values()[n - 1]@.path,
            manifest_deps(ws.values()[n - 1]@.manifest, opts),
        )
    }
}

/// The paths that the `file:` dependencies of the workspaces point to,
/// which must be looked up on the file system (see `FileTarget`) before
/// the workspaces' links can be resolved.
pub fn file_target_paths(workspaces: &StrMap<WorkspacePackage>, options: &SyncOptions) -> (r: Vec<String>)
    ensures
        texts_of(r@) == file_paths_of(*workspaces, *options, workspaces.keys().len() as int),
{
    proof {
        reveal_strlit("file:");
        workspaces.lemma_lengths();
    }
    let mut out: Vec<String> = Vec::new();
    let n = workspaces.len();
    let mut w: usize = 0;
    assert(texts_of(out@) =~= file_paths_of(*workspaces, *options, 0));
    while w < n
        invariant
            n == workspaces.keys().len(),
            workspaces.keys().len() == workspaces.values().len(),
            w <= n,
            texts_of(out@) == file_paths_of(*workspaces, *options, w as int),
        decreases n - w,
    {
        let ws = workspaces.value_at(w);
        let deps = dependency_entries(&ws.manifest, options);
        let ghost dv = deps_view(deps@);
        let ghost start = texts_of(out@);
        let mut i: usize = 0;
        assert(dv.take(0) =~= Seq::<DependencyView>::empty());
        assert(texts_of(out@) =~= start + dep_file_paths(ws.path@, dv.take(0)));
        while i < deps.len()
            invariant
                dv == deps_view(deps@),
                i <= deps@.len(),
                texts_of(out@) == start + dep_file_paths(ws.path@, dv.take(i as int)),
            decreases deps@.len() - i,
        {
            let d = &deps[i];
            assert(dv.take(i + 1).drop_last() =~= dv.take(i as int));
            assert(dv.take(i + 1).last() == d@);
            if starts_with(d.spec.as_str(), "file:") {
                proof {
                    reveal_strlit("file:");
                }
                let chars = chars_of(d.spec.as_str());
                let relative = string_from_chars(&chars, 5, chars.len());
                assert(relative@ =~= d.spec@.skip(5));
                let p = join(ws.path.as_str(), relative.as_str());
                let ghost prev = out@;
                out.push(p);
                assert(texts_of(out@) =~= texts_of(prev).push(p@));
            }
            assert(texts_of(out@) =~= start + dep_file_paths(ws.path@, dv.take(i + 1)));
            i = i + 1;
        }
        assert(dv.take(deps@.len() as int) =~= dv);
        assert(texts_of(out@) =~= file_paths_of(*workspaces, *options, w + 1));
        w = w + 1;
    }
    out
}


// ── The plan ────────────────────────────────────────────────────────

/// The workspaces a sync takes part in: those the filters select, or all
/// when there is no filter.
pub open spec fn in_selection(
    ws: StrMap<WorkspacePackage>,
    opts: SyncOptions,
    filters: Seq<Seq<char>>,
    k: Seq<char>,
) -> bool {
    if filters.len() == 0 {
        ws.has(k)
    } else {
        selected_by(ws, opts, filters, k)
    }
}

/// The path the plan shows for a workspace at `path` under `root`.
pub open spec fn shown_path(path: Seq<char>, root: Seq<char>) -> Seq<char> {
    match stripped_path(path, root) {
        Some(s) => s,
        None => path,
    }
}

/// A workspace's path as the plan shows it.
pub fn workspace_dir(path: &str, root: &str) -> (r: String)
    ensures
        r@ == shown_path(path@, root@),
{
    relative_to_root(path, strip_path_prefix(path, root))
}

/// The steps of resolving the local links of workspace `k`.
pub open spec fn ws_steps(
    ws: StrMap<WorkspacePackage>,
    opts: SyncOptions,
    targets: Seq<FileTarget>,
    k: Seq<char>,
) -> Seq<Result<Option<(Seq<char>, ResolvedView)>, ErrorView>> {
    local_steps(ws.value_of(k)@, ws, opts, targets)
}

/// The plan is what `build_plan` promises for these inputs.
pub open spec fn plan_matches(
    plan: SyncPlan,
    root: Seq<char>,
    ws: StrMap<WorkspacePackage>,
    fv: Seq<Seq<char>>,
    opts: SyncOptions,
    pm: Seq<char>,
    targets: Seq<FileTarget>,
) -> bool {
    &&& plan_fields_match(plan, root, ws, fv, opts, pm, targets)
    &&& plan.dedup is None
}

/// Every field of the plan but `dedup` is what `build_plan` promises for
/// these inputs.
pub open spec fn plan_fields_match(
    plan: SyncPlan,
    root: Seq<char>,
    ws: StrMap<WorkspacePackage>,
    fv: Seq<Seq<char>>,
    opts: SyncOptions,
    pm: Seq<char>,
    targets: Seq<FileTarget>,
) -> bool {
    &&& plan.root@ == root
    &&& plan.package_manager@ == pm
    &&& plan.options == opts
    &&& sorted_keys(strings_view(plan.selected_workspaces@))
    &&& forall|k: Seq<char>| #[trigger]
        strings_view(plan.selected_workspaces@).contains(k) <==> in_selection(ws, opts, fv, k)
    &&& forall|k: Seq<char>| #[trigger] plan.workspace_links.has(k) <==> in_selection(ws, opts, fv, k)
    &&& forall|k: Seq<char>, d: Seq<char>| #[trigger]
        plan.workspace_links.has(k) ==> (#[trigger] plan.workspace_links.value_of(k).has(d)
            <==> last_found(local_steps(ws.value_of(k)@, ws, opts, targets), d) is Some)
    &&& forall|k: Seq<char>, d: Seq<char>| #[trigger]
        plan.workspace_links.has(k) && #[trigger] plan.workspace_links.value_of(k).has(d)
            ==> plan.workspace_links.value_of(k).value_of(d)@ == last_found(
            local_steps(ws.value_of(k)@, ws, opts, targets),
            d,
        )->0
    &&& forall|k: Seq<char>| #[trigger] plan.workspaces.has(k) <==> ws.has(k)
    &&& forall|k: Seq<char>| #[trigger]
        plan.workspaces.has(k) ==> plan.workspaces.value_of(k)@ == shown_path(ws.value_of(k)@.path, root)
}

proof fn lemma_last_found_witness<T>(steps: Seq<Result<Option<(Seq<char>, T)>, ErrorView>>, k: Seq<char>)
    ensures
        last_found(steps, k) matches Some(v) ==> exists|i: int|
            0 <= i < steps.len() && #[trigger] steps[i] == Ok::<Option<(Seq<char>, T)>, ErrorView>(
                Some((k, v)),
            ),
    decreases steps.len(),
{
    if steps.len() > 0 {
        lemma_last_found_witness(steps.drop_last(), k);
        if last_found(steps, k) is Some {
            let v = last_found(steps, k)->0;
            match steps.last() {
                Ok(Some((n, w))) => {
                    if n == k {
                        assert(steps[steps.len() - 1] == steps.last());
                    } else {
                        let i = choose|i: int|
                            0 <= i < steps.drop_last().len() && #[trigger] steps.drop_last()[i] == Ok::<
                                Option<(Seq<char>, T)>,
                                ErrorView,
                            >(Some((k, v)));
                        assert(steps[i] == steps.drop_last()[i]);
                    }
                },
                _ => {
                    let i = choose|i: int|
                        0 <= i < steps.drop_last().len() && #[trigger] steps.drop_last()[i] == Ok::<
                            Option<(Seq<char>, T)>,
                            ErrorView,
                        >(Some((k, v)));
                    assert(steps[i] == steps.drop_last()[i]);
                },
            }
        }
    }
}

/// A dependency is linked locally for one of two reasons only.
pub open spec fn local_link(ws: StrMap<WorkspacePackage>, d: Seq<char>, v: ResolvedView) -> bool {
    &&& v.name == d
    &&& {
        ||| (v.kind == "workspace"@ && has_prefix(v.spec, "workspace:"@) && ws.has(d)
            && v.target_path == Some(ws.value_of(d)@.path))
        ||| (v.kind == "file"@ && has_prefix(v.spec, "file:"@) && v.target_path is Some
            && v.version is Some)
    }
}

/// Only local dependencies are linked: in a plan, each link of a
/// workspace is for a `workspace:` dependency on a discovered workspace,
/// linked to that workspace's directory, or for a `file:` dependency with
/// a target and a version; dependencies from the registry never appear.
pub proof fn lemma_plan_links_are_local(
    plan: SyncPlan,
    root: Seq<char>,
    ws: StrMap<WorkspacePackage>,
    fv: Seq<Seq<char>>,
    opts: SyncOptions,
    pm: Seq<char>,
    targets: Seq<FileTarget>,
)
    requires
        plan_matches(plan, root, ws, fv, opts, pm, targets),
    ensures
        forall|k: Seq<char>, d: Seq<char>|
            plan.workspace_links.has(k) && #[trigger] plan.workspace_links.value_of(k).has(d) ==> local_link(
                ws,
                d,
                plan.workspace_links.value_of(k).value_of(d)@,
            ),
{
    assert forall|k: Seq<char>, d: Seq<char>|
        plan.workspace_links.has(k) && #[trigger] plan.workspace_links.value_of(k).has(d) implies local_link(
            ws,
            d,
            plan.workspace_links.value_of(k).value_of(d)@,
        ) by {
        let w = ws.value_of(k)@;
        let steps = local_steps(w, ws, opts, targets);
        lemma_last_found_witness(steps, d);
        let v = last_found(steps, d)->0;
        let i = choose|i: int|
            0 <= i < steps.len() && #[trigger] steps[i] == Ok::<Option<(Seq<char>, ResolvedView)>, ErrorView>(
                Some((d, v)),
            );
        let dep = manifest_deps(w.manifest, opts)[i];
        assert(steps[i] == local_step(w.path, ws, targets, dep));
        assert(dep.name == d);
    }
}

/// What `build_plan` gives for these inputs: the error of an unknown
/// filter first, then that of detecting the package manager, then that of
/// the first selected workspace, in name order, whose links fail;
/// otherwise the plan that `plan_matches` describes.
pub open spec fn plan_outcome(
    r: Result<SyncPlan, MonodepError>,
    root: Seq<char>,
    workspaces: StrMap<WorkspacePackage>,
    fv: Seq<Seq<char>>,
    options: SyncOptions,
    package_manager: Result<String, MonodepError>,
    targets: Seq<FileTarget>,
) -> bool {
    let closure_ok = fv.len() == 0 || last_unknown(workspaces, fv) is None;
    &&& fv.len() > 0 && last_unknown(workspaces, fv) is Some ==> (r matches Err(e) && is_general(
        e,
        unknown_filter_message(last_unknown(workspaces, fv)->0),
    ))
    &&& closure_ok && package_manager is Err ==> (r matches Err(e) && e@ == package_manager->Err_0@)
    &&& closure_ok && package_manager is Ok ==> (r is Err <==> exists|k: Seq<char>|
        in_selection(workspaces, options, fv, k) && #[trigger] first_error(ws_steps(workspaces, options, targets, k)) is Some)
    &&& closure_ok && package_manager is Ok ==> (r matches Err(e) ==> exists|k0: Seq<char>|
        in_selection(workspaces, options, fv, k0) && #[trigger] first_error(ws_steps(workspaces, options, targets, k0)) == Some(e@)
            && forall|k: Seq<char>|
            in_selection(workspaces, options, fv, k) && #[trigger] first_error(ws_steps(workspaces, options, targets, k)) is Some
                && k != k0 ==> str_lt(k0, k))
    &&& r matches Ok(plan) ==> closure_ok && package_manager is Ok && plan_matches(
        plan,
        root,
        workspaces,
        fv,
        options,
        package_manager->Ok_0@,
        targets,
    )
}

/// Two link maps are alike: the same dependency names, in the same order,
/// resolved the same way.
pub open spec fn same_links(m1: StrMap<ResolvedDependency>, m2: StrMap<ResolvedDependency>) -> bool {
    &&& m1.keys() == m2.keys()
    &&& m1.values().len() == m2.values().len()
    &&& forall|i: int| 0 <= i < m1.values().len() ==> (#[trigger] m1.values()[i])@ == m2.values()[i]@
}

/// Two plans are alike in every field.
pub open spec fn same_plan(p1: SyncPlan, p2: SyncPlan) -> bool {
    &&& p1.root@ == p2.root@
    &&& p1.package_manager@ == p2.package_manager@
    &&& p1.options == p2.options
    &&& p1.dedup is None && p2.dedup is None
    &&& strings_view(p1.selected_workspaces@) == strings_view(p2.selected_workspaces@)
    &&& p1.workspace_links.keys() == p2.workspace_links.keys()
    &&& p1.workspace_links.values().len() == p2.workspace_links.values().len()
    &&& forall|i: int|
        0 <= i < p1.workspace_links.values().len() ==> same_links(
            #[trigger] p1.workspace_links.values()[i],
            p2.workspace_links.values()[i],
        )
    &&& p1.workspaces.keys() == p2.workspaces.keys()
    &&& p1.workspaces.values().len() == p2.workspaces.values().len()
    &&& forall|i: int| 0 <= i < p1.workspaces.values().len() ==> (#[trigger] p1.workspaces.values()[i])@
        == p2.workspaces.values()[i]@
}

/// Two outcomes of planning are alike: the same error, or alike plans.
pub open spec fn same_outcome(r1: Result<SyncPlan, MonodepError>, r2: Result<SyncPlan, MonodepError>) -> bool {
    match (r1, r2) {
        (Ok(p1), Ok(p2)) => same_plan(p1, p2),
        (Err(e1), Err(e2)) => e1@ == e2@,
        _ => false,
    }
}

/// The maps of a plan keep their keys sorted, as every `StrMap` does.
pub open spec fn plan_maps_valid(r: Result<SyncPlan, MonodepError>) -> bool {
    r matches Ok(p) ==> {
        &&& p.workspace_links.well_formed()
        &&& p.workspaces.well_formed()
        &&& forall|i: int|
            0 <= i < p.workspace_links.values().len() ==> (#[trigger] p.workspace_links.values()[i]).well_formed()
    }
}

proof fn lemma_same_links(
    m1: StrMap<ResolvedDependency>,
    m2: StrMap<ResolvedDependency>,
    steps: Seq<Result<Option<(Seq<char>, ResolvedView)>, ErrorView>>,
)
    requires
        m1.well_formed(),
        m2.well_formed(),
        forall|d: Seq<char>| #[trigger] m1.has(d) <==> last_found(steps, d) is Some,
        forall|d: Seq<char>| #[trigger] m2.has(d) <==> last_found(steps, d) is Some,
        forall|d: Seq<char>| #[trigger] m1.has(d) ==> m1.value_of(d)@ == last_found(steps, d)->0,
        forall|d: Seq<char>| #[trigger] m2.has(d) ==> m2.value_of(d)@ == last_found(steps, d)->0,
    ensures
        same_links(m1, m2),
{
    assert forall|k: Seq<char>| m1.keys().contains(k) <==> m2.keys().contains(k) by {
        assert(m1.has(k) == m1.keys().contains(k));
        assert(m2.has(k) == m2.keys().contains(k));
    }
    lemma_sorted_keys_unique(m1.keys(), m2.keys());
    m1.lemma_lengths();
    m2.lemma_lengths();
    assert forall|i: int| 0 <= i < m1.values().len() implies (#[trigger] m1.values()[i])@ == m2.values()[i]@ by {
        m1.lemma_key_index(i);
        m2.lemma_key_index(i);
    }
}

/// Planning is a function of its inputs: two outcomes that `build_plan`
/// may give for the same root, workspaces, filters, options, package
/// manager and targets are alike (the same error, or plans alike in every
/// field). The library reads and writes no file while planning; all it
/// knows of the file system it is handed.
pub proof fn lemma_build_plan_deterministic(
    r1: Result<SyncPlan, MonodepError>,
    r2: Result<SyncPlan, MonodepError>,
    root: Seq<char>,
    ws: StrMap<WorkspacePackage>,
    fv: Seq<Seq<char>>,
    opts: SyncOptions,
    pm: Result<String, MonodepError>,
    targets: Seq<FileTarget>,
)
    requires
        plan_outcome(r1, root, ws, fv, opts, pm, targets),
        plan_outcome(r2, root, ws, fv, opts, pm, targets),
        plan_maps_valid(r1),
        plan_maps_valid(r2),
    ensures
        same_outcome(r1, r2),
{
    let closure_ok = fv.len() == 0 || last_unknown(ws, fv) is None;
    if !closure_ok || pm is Err {
        return;
    }
    if r1 is Err && r2 is Err {
        let e1 = r1->Err_0;
        let e2 = r2->Err_0;
        let a = choose|k0: Seq<char>|
            in_selection(ws, opts, fv, k0) && #[trigger] first_error(ws_steps(ws, opts, targets, k0)) == Some(e1@)
                && forall|k: Seq<char>|
                in_selection(ws, opts, fv, k) && #[trigger] first_error(ws_steps(ws, opts, targets, k)) is Some
                    && k != k0 ==> str_lt(k0, k);
        let b = choose|k0: Seq<char>|
            in_selection(ws, opts, fv, k0) && #[trigger] first_error(ws_steps(ws, opts, targets, k0)) == Some(e2@)
                && forall|k: Seq<char>|
                in_selection(ws, opts, fv, k) && #[trigger] first_error(ws_steps(ws, opts, targets, k)) is Some
                    && k != k0 ==> str_lt(k0, k);
        if a != b {
            assert(str_lt(a, b));
            assert(str_lt(b, a));
            lemma_str_lt_asymmetric(a, b);
        }
        return;
    }
    if r1 is Ok && r2 is Ok {
        let p1 = r1->Ok_0;
        let p2 = r2->Ok_0;
        let pmv = pm->Ok_0@;
        assert(plan_matches(p1, root, ws, fv, opts, pmv, targets));
        assert(plan_matches(p2, root, ws, fv, opts, pmv, targets));
        let s1 = strings_view(p1.selected_workspaces@);
        let s2 = strings_view(p2.selected_workspaces@);
        assert forall|k: Seq<char>| s1.contains(k) <==> s2.contains(k) by {
            assert(s1.contains(k) <==> in_selection(ws, opts, fv, k));
            assert(s2.contains(k) <==> in_selection(ws, opts, fv, k));
        }
        lemma_sorted_keys_unique(s1, s2);
        let l1 = p1.workspace_links;
        let l2 = p2.workspace_links;
        assert forall|k: Seq<char>| l1.keys().contains(k) <==> l2.keys().contains(k) by {
            assert(l1.has(k) <==> in_selection(ws, opts, fv, k));
            assert(l2.has(k) <==> in_selection(ws, opts, fv, k));
        }
        lemma_sorted_keys_unique(l1.keys(), l2.keys());
        l1.lemma_lengths();
        l2.lemma_lengths();
        assert forall|i: int| 0 <= i < l1.values().len() implies same_links(
            #[trigger] l1.values()[i],
            l2.values()[i],
        ) by {
            l1.lemma_key_index(i);
            l2.lemma_key_index(i);
            let k = l1.keys()[i];
            let steps = local_steps(ws.value_of(k)@, ws, opts, targets);
            let m1 = l1.values()[i];
            let m2 = l2.values()[i];
            assert(m1 == l1.value_of(k));
            assert(m2 == l2.value_of(k));
            assert forall|d: Seq<char>| #[trigger] m1.has(d) <==> last_found(steps, d) is Some by {
                assert(l1.has(k) ==> (l1.value_of(k).has(d) <==> last_found(steps, d) is Some));
            }
            assert forall|d: Seq<char>| #[trigger] m2.has(d) <==> last_found(steps, d) is Some by {
                assert(l2.has(k) ==> (l2.value_of(k).has(d) <==> last_found(steps, d) is Some));
            }
            assert forall|d: Seq<char>| #[trigger] m1.has(d) implies m1.value_of(d)@ == last_found(steps, d)->0 by {
                assert(l1.has(k) && l1.value_of(k).has(d));
            }
            assert forall|d: Seq<char>| #[trigger] m2.has(d) implies m2.value_of(d)@ == last_found(steps, d)->0 by {
                assert(l2.has(k) && l2.value_of(k).has(d));
            }
            lemma_same_links(m1, m2, steps);
        }
        let w1 = p1.workspaces;
        let w2 = p2.workspaces;
        assert forall|k: Seq<char>| w1.keys().contains(k) <==> w2.keys().contains(k) by {
            assert(w1.has(k) <==> ws.has(k));
            assert(w2.has(k) <==> ws.has(k));
        }
        lemma_sorted_keys_unique(w1.keys(), w2.keys());
        w1.lemma_lengths();
        w2.lemma_lengths();
        assert forall|i: int| 0 <= i < w1.values().len() implies (#[trigger] w1.values()[i])@ == w2.values()[i]@ by {
            w1.lemma_key_index(i);
            w2.lemma_key_index(i);
        }
    }
}

/// The plan of a sync: the workspaces selected by the filters (see
/// `closure_for_filters`), the package manager, the local links of each
/// selected workspace (see `resolve_local_deps`) and where each discovered
/// workspace lies under the root. Errors come in this order: an unknown
/// filter, the error of detecting the package manager, then the error of
/// the first selected workspace, in name order, whose links fail.
pub fn build_plan(
    root: &str,
    workspaces: &StrMap<WorkspacePackage>,
    filters: &Vec<String>,
    options: &SyncOptions,
    package_manager: &Result<String, MonodepError>,
    targets: &Vec<FileTarget>,
) -> (r: Result<SyncPlan, MonodepError>)
    ensures
        plan_outcome(r, root@, *workspaces, strings_view(filters@), *options, *package_manager, targets@),
{
    let ghost fv = strings_view(filters@);
    let ghost ws = *workspaces;
    proof {
        use_type_invariant(workspaces);
    }
    let selected = match closure_for_filters(workspaces, filters, options) {
        Ok(s) => s,
        Err(e) => {
            return Err(e);
        },
    };
    let pm = match package_manager {
        Ok(p) => p.clone(),
        Err(e) => {
            return Err(e.duplicate());
        },
    };
    proof {
        use_type_invariant(&selected);
    }
    let mut links_map: StrMap<StrMap<ResolvedDependency>> = StrMap::new();
    let mut i: usize = 0;
    while i < selected.len()
        invariant
            ws == *workspaces,
            fv == strings_view(filters@),
            fv.len() == 0 || last_unknown(ws, fv) is None,
            package_manager is Ok,
            selected.well_formed(),
            forall|k: Seq<char>| #[trigger] selected.has(k) <==> in_selection(ws, *options, fv, k),
            forall|k: Seq<char>| #[trigger] selected.has(k) ==> selected.value_of(k)@ == ws.value_of(k)@,
            i <= selected.keys().len(),
            forall|j: int| 0 <= j < i ==> first_error(
                local_steps(ws.value_of(#[trigger] selected.keys()[j])@, ws, *options, targets@),
            ) is None,
            forall|k: Seq<char>| #[trigger]
                links_map.has(k) <==> exists|j: int| 0 <= j < i && selected.keys()[j] == k,
            forall|k: Seq<char>, d: Seq<char>| #[trigger]
                links_map.has(k) ==> (#[trigger] links_map.value_of(k).has(d) <==> last_found(
                    local_steps(ws.value_of(k)@, ws, *options, targets@),
                    d,
                ) is Some),
            forall|k: Seq<char>, d: Seq<char>| #[trigger]
                links_map.has(k) && #[trigger] links_map.value_of(k).has(d) ==> links_map.value_of(
                    k,
                ).value_of(d)@ == last_found(local_steps(ws.value_of(k)@, ws, *options, targets@), d)->0,
        decreases selected.keys().len() - i,
    {
        let name = selected.key_at(i);
        let w = selected.value_at(i);
        proof {
            selected.lemma_key_index(i as int);
        }
        match resolve_local_deps(w, workspaces, options, targets) {
            Ok(links) => {
                let ghost old_map = links_map;
                links_map.insert(name.clone(), links);
                proof {
                    assert forall|k: Seq<char>| #[trigger] links_map.has(k) implies exists|j: int|
                        0 <= j < i + 1 && selected.keys()[j] == k by {
                        if k == name@ {
                            assert(selected.keys()[i as int] == k);
                        }
                    }
                    assert forall|k: Seq<char>, d: Seq<char>| #[trigger]
                        links_map.has(k) implies (#[trigger] links_map.value_of(k).has(d) <==> last_found(
                        local_steps(ws.value_of(k)@, ws, *options, targets@),
                        d,
                    ) is Some) by {
                        if k != name@ {
                            assert(old_map.has(k));
                        }
                    }
                    assert forall|k: Seq<char>, d: Seq<char>| #[trigger]
                        links_map.has(k) && #[trigger] links_map.value_of(k).has(d) implies links_map.value_of(
                        k,
                    ).value_of(d)@ == last_found(local_steps(ws.value_of(k)@, ws, *options, targets@), d)->0 by {
                        if k != name@ {
                            assert(old_map.has(k));
                        }
                    }
                }
            },
            Err(e) => {
                proof {
                    let k0 = name@;
                    assert(selected.has(k0));
                    assert(first_error(ws_steps(ws, *options, targets@, k0)) == Some(e@));
                    assert forall|k: Seq<char>|
                        in_selection(ws, *options, fv, k) && #[trigger] first_error(
                            local_steps(ws.value_of(k)@, ws, *options, targets@),
                        ) is Some && k != k0 implies str_lt(k0, k) by {
                        assert(selected.has(k));
                        selected.lemma_has(k);
                        let j = crate::strmap::key_index(selected.keys(), k);
                        if j < i {
                        } else if j == i {
                        } else {
                            assert(str_lt(selected.keys()[i as int], selected.keys()[j]));
                        }
                    }
                }
                return Err(e);
            },
        }
        i = i + 1;
    }
    let mut ws_map: StrMap<String> = StrMap::new();
    let mut j: usize = 0;
    while j < workspaces.len()
        invariant
            ws == *workspaces,
            ws.well_formed(),
            j <= ws.keys().len(),
            forall|k: Seq<char>| #[trigger] ws_map.has(k) <==> exists|x: int| 0 <= x < j && ws.keys()[x] == k,
            forall|k: Seq<char>| #[trigger]
                ws_map.has(k) ==> ws_map.value_of(k)@ == shown_path(ws.value_of(k)@.path, root@),
        decreases ws.keys().len() - j,
    {
        let name = workspaces.key_at(j);
        let w = workspaces.value_at(j);
        proof {
            workspaces.lemma_key_index(j as int);
        }
        let dir = workspace_dir(w.path.as_str(), root);
        ws_map.insert(name.clone(), dir);
        proof {
            assert forall|k: Seq<char>| #[trigger] ws_map.has(k) implies exists|x: int|
                0 <= x < j + 1 && ws.keys()[x] == k by {
                if k == name@ {
                    assert(ws.keys()[j as int] == k);
                }
            }
        }
        j = j + 1;
    }
    let names = selected.keys_vec();
    let plan = SyncPlan {
        options: *options,
        package_manager: pm,
        root: root.to_owned(),
        selected_workspaces: names,
        workspace_links: links_map,
        workspaces: ws_map,
        dedup: None,
    };
    proof {
        assert forall|k: Seq<char>|
            in_selection(ws, *options, fv, k) implies #[trigger] first_error(ws_steps(ws, *options, targets@, k))
            is None by {
            selected.lemma_has(k);
            let x = crate::strmap::key_index(selected.keys(), k);
            assert(first_error(local_steps(ws.value_of(selected.keys()[x])@, ws, *options, targets@)) is None);
        }
        assert(strings_view(names@) =~= selected.keys());
        assert forall|k: Seq<char>| #[trigger] plan.workspace_links.has(k) <==> in_selection(ws, *options, fv, k) by {
            if in_selection(ws, *options, fv, k) {
                selected.lemma_has(k);
            }
            if plan.workspace_links.has(k) {
                let x = choose|x: int| 0 <= x < selected.keys().len() && selected.keys()[x] == k;
                selected.lemma_key_index(x);
            }
        }
        assert forall|k: Seq<char>| #[trigger] plan.workspaces.has(k) <==> ws.has(k) by {
            if ws.has(k) {
                ws.lemma_has(k);
            }
            if plan.workspaces.has(k) {
                let x = choose|x: int| 0 <= x < ws.keys().len() && ws.keys()[x] == k;
                ws.lemma_key_index(x);
            }
        }
        assert forall|k: Seq<char>| #[trigger]
            strings_view(plan.selected_workspaces@).contains(k) <==> in_selection(ws, *options, fv, k) by {
            if in_selection(ws, *options, fv, k) {
                selected.lemma_has(k);
            }
            if strings_view(plan.selected_workspaces@).contains(k) {
                let x = choose|x: int| 0 <= x < selected.keys().len() && selected.keys()[x] == k;
                selected.lemma_key_index(x);
            }
        }
    }
    Ok(plan)
}


// ── Symlinks ────────────────────────────────────────────────────────

/// What `pathdiff::diff_paths(path, base)` gives: the relative path that
/// leads from directory `base` to `path`, when there is one.
pub uninterp spec fn path_difference(path: Seq<char>, base: Seq<char>) -> Option<Seq<char>>;

/// `pathdiff::diff_paths`, as text: its result is named, not stated.
#[verifier::external_body]
fn diff_paths(path: &str, base: &str) -> (r: Option<String>)
    ensures
        r is Some <==> path_difference(path@, base@) is Some,
        r matches Some(s) ==> s@ == path_difference(path@, base@)->0,
{
    match pathdiff::diff_paths(path, base) {
        Some(d) => Some(d.to_string_lossy().into_owned()),
        None => None,
    }
}

/// What a symlink to `target` holds: the relative path from the link's
/// directory, or `target` itself when there is none.
pub fn link_contents(target: &str, difference: Option<String>) -> (r: String)
    ensures
        r@ == match difference {
            Some(d) => d@,
            None => target@,
        },
{
    match difference {
        Some(d) => d,
        None => target.to_owned(),
    }
}

/// The directory in which a link at `link` lives.
pub open spec fn link_dir(link: Seq<char>) -> Seq<char> {
    match parent_path(link) {
        Some(p) => p,
        None => "."@,
    }
}

/// What a symlink at `link` to `target` holds.
pub open spec fn relative_target(target: Seq<char>, link: Seq<char>) -> Seq<char> {
    match path_difference(target, link_dir(link)) {
        Some(d) => d,
        None => target,
    }
}

/// The contents of a symlink at `link` that points to `target`: the path of
/// `target` relative to the link's directory.
pub fn relative_link_target(target: &str, link: &str) -> (r: String)
    ensures
        r@ == relative_target(target@, link@),
{
    let dir = parent_or_current(path_parent(link));
    link_contents(target, diff_paths(target, dir.as_str()))
}

// ── The marker of managed links ─────────────────────────────────────

/// The name of the file, in `node_modules`, that records the links this
/// tool made.
pub open spec fn marker_name() -> Seq<char> {
    ".monodep-managed.json"@
}

pub fn marker_file_name() -> (r: String)
    ensures
        r@ == marker_name(),
{
    ".monodep-managed.json".to_owned()
}

pub open spec fn text_values(s: Seq<Seq<char>>) -> Seq<ValueModel> {
    s.map_values(|t: Seq<char>| ValueModel::Str(t))
}

/// The marker document: `bins` and `dependencies`, each the given names.
pub open spec fn marker_doc(bins: Seq<Seq<char>>, deps: Seq<Seq<char>>) -> ValueModel {
    ValueModel::Object(
        seq!["bins"@, "dependencies"@],
        seq![ValueModel::Array(text_values(bins)), ValueModel::Array(text_values(deps))],
    )
}

fn string_array(v: &Vec<String>) -> (r: Value)
    ensures
        r@ == ValueModel::Array(text_values(texts_of(v@))),
{
    let mut items: Vec<Value> = Vec::new();
    let mut i: usize = 0;
    while i < v.len()
        invariant
            i <= v@.len(),
            items@.len() == i,
            forall|j: int| 0 <= j < i ==> (#[trigger] items@[j])@ == ValueModel::Str(v@[j]@),
        decreases v@.len() - i,
    {
        items.push(Value::Str(v[i].clone()));
        i = i + 1;
    }
    let r = Value::Array(items);
    assert(r@->Array_0 =~= text_values(texts_of(v@)));
    r
}

/// The marker that records the links made: the linked dependency names
/// and executable names, each list sorted.
pub fn managed_marker(dependencies: &Vec<String>, bins: &Vec<String>) -> (r: Value)
    ensures
        exists|b: Seq<Seq<char>>, d: Seq<Seq<char>>|
            sorted_texts(b) && b.to_multiset() == texts_of(bins@).to_multiset() && sorted_texts(d)
                && d.to_multiset() == texts_of(dependencies@).to_multiset() && r@ == #[trigger] marker_doc(
                b,
                d,
            ),
{
    let deps = sort_strings(dependencies);
    let bin_list = sort_strings(bins);
    let a = string_array(&bin_list);
    let b = string_array(&deps);
    let ghost av = a@;
    let ghost bv = b@;
    let mut fields: Vec<Member> = Vec::new();
    fields.push(Member { key: "bins".to_owned(), value: a });
    fields.push(Member { key: "dependencies".to_owned(), value: b });
    let r = Value::Object(fields);
    proof {
        assert(r@->Object_0 =~= seq!["bins"@, "dependencies"@]);
        assert(r@->Object_1 =~= seq![av, bv]);
        assert(r@ == marker_doc(texts_of(bin_list@), texts_of(deps@)));
    }
    r
}

/// The links that a marker records, to be removed before linking anew.
pub struct Removals {
    pub dependency_links: Vec<String>,
    pub bin_links: Vec<String>,
    pub bins_recorded: bool,
}

/// The string items of an array value, each joined to `dir`.
pub open spec fn joined_texts(dir: Seq<char>, v: Option<ValueModel>) -> Seq<Seq<char>>
    decreases (match v {
        Some(ValueModel::Array(items)) => items.len(),
        _ => 0,
    }),
{
    match v {
        Some(ValueModel::Array(items)) => if items.len() == 0 {
            Seq::empty()
        } else {
            let rest = joined_texts(dir, Some(ValueModel::Array(items.drop_last())));
            match items.last() {
                ValueModel::Str(s) => rest.push(path_join(dir, s)),
                _ => rest,
            }
        },
        _ => Seq::empty(),
    }
}

fn joined_items(dir: &str, v: Option<&Value>) -> (r: Vec<String>)
    ensures
        texts_of(r@) == joined_texts(
            dir@,
            match v {
                Some(x) => Some(x@),
                None => None,
            },
        ),
{
    match v {
        Some(Value::Array(items)) => {
            let ghost all = v->0@->Array_0;
            let mut out: Vec<String> = Vec::new();
            let mut i: usize = 0;
            assert(all.take(0) =~= Seq::<ValueModel>::empty());
            assert(texts_of(out@) =~= Seq::<Seq<char>>::empty());
            while i < items.len()
                invariant
                    all == Value::Array(*items)@->Array_0,
                    i <= items@.len(),
                    texts_of(out@) == joined_texts(dir@, Some(ValueModel::Array(all.take(i as int)))),
                decreases items@.len() - i,
            {
                proof {
                    assert(all.take(i + 1).drop_last() =~= all.take(i as int));
                    assert(all.take(i + 1).last() == items@[i as int]@);
                }
                let ghost prev = out@;
                match &items[i] {
                    Value::Str(s) => {
                        out.push(join(dir, s.as_str()));
                        assert(texts_of(out@) =~= texts_of(prev).push(path_join(dir@, s@)));
                    },
                    _ => {},
                }
                i = i + 1;
            }
            assert(all.take(items@.len() as int) =~= all);
            out
        },
        _ => Vec::new(),
    }
}

/// What to remove of an earlier run's links in `node_modules`, given its
/// marker: each recorded dependency name under `node_modules`, each
/// recorded executable name under `node_modules/.bin` (entries that are not
/// strings are skipped), and whether executables were recorded at all (then
/// an empty `.bin` goes too).
pub fn managed_removals(node_modules: &str, marker: &Value) -> (r: Removals)
    ensures
        texts_of(r.dependency_links@) == joined_texts(node_modules@, marker@.field("dependencies"@)),
        texts_of(r.bin_links@) == joined_texts(
            path_join(node_modules@, ".bin"@),
            marker@.field("bins"@),
        ),
        r.bins_recorded == (marker@.field("bins"@) matches Some(ValueModel::Array(_))),
{
    let deps = joined_items(node_modules, marker.get("dependencies"));
    let bin_dir = join(node_modules, ".bin");
    let bins = joined_items(bin_dir.as_str(), marker.get("bins"));
    let recorded = match marker.get("bins") {
        Some(Value::Array(_)) => true,
        _ => false,
    };
    Removals { dependency_links: deps, bin_links: bins, bins_recorded: recorded }
}


proof fn lemma_joined_text_values(dir: Seq<char>, names: Seq<Seq<char>>)
    ensures
        joined_texts(dir, Some(ValueModel::Array(text_values(names)))) == names.map_values(
            |n: Seq<char>| path_join(dir, n),
        ),
    decreases names.len(),
{
    if names.len() > 0 {
        assert(text_values(names).drop_last() =~= text_values(names.drop_last()));
        lemma_joined_text_values(dir, names.drop_last());
        assert(names.map_values(|n: Seq<char>| path_join(dir, n)) =~= names.drop_last().map_values(
            |n: Seq<char>| path_join(dir, n),
        ).push(path_join(dir, names.last())));
    } else {
        assert(names.map_values(|n: Seq<char>| path_join(dir, n)) =~= Seq::<Seq<char>>::empty());
    }
}

/// What the marker of one run records, the next run removes: for the
/// marker of the executable names `bins` and dependency names `deps`, the
/// removals are each dependency name under `node_modules` and each
/// executable name under `node_modules/.bin`, in the recorded order, and
/// the executables count as recorded.
pub proof fn lemma_marker_roundtrip(node_modules: Seq<char>, bins: Seq<Seq<char>>, deps: Seq<Seq<char>>)
    ensures
        joined_texts(node_modules, marker_doc(bins, deps).field("dependencies"@)) == deps.map_values(
            |d: Seq<char>| path_join(node_modules, d),
        ),
        joined_texts(path_join(node_modules, ".bin"@), marker_doc(bins, deps).field("bins"@))
            == bins.map_values(|b: Seq<char>| path_join(path_join(node_modules, ".bin"@), b)),
        marker_doc(bins, deps).field("bins"@) matches Some(ValueModel::Array(_)),
{
    reveal_strlit("bins");
    reveal_strlit("dependencies");
    let ks = seq!["bins"@, "dependencies"@];
    assert(ks[0] != ks[1]) by {
        assert(ks[0].len() != ks[1].len());
    }
    assert(find_key(ks, "bins"@, 0) == Some(0int));
    assert(find_key(ks, "dependencies"@, 1) == Some(1int));
    assert(find_key(ks, "dependencies"@, 0) == Some(1int));
    lemma_joined_text_values(node_modules, deps);
    lemma_joined_text_values(path_join(node_modules, ".bin"@), bins);
}


// ── Linking local dependencies ──────────────────────────────────────

/// The `package.json` of a link target, when it exists and parses.
pub struct TargetManifest {
    pub dir: String,
    pub manifest: Option<Value>,
}

/// The manifest recorded for directory `dir`, by the first record of it.
pub open spec fn find_manifest(ms: Seq<TargetManifest>, dir: Seq<char>) -> Option<ValueModel>
    decreases ms.len(),
{
    if ms.len() == 0 {
        None
    } else if ms[0].dir@ == dir {
        match ms[0].manifest {
            Some(v) => Some(v@),
            None => None,
        }
    } else {
        find_manifest(ms.drop_first(), dir)
    }
}

fn find_manifest_exec<'a>(ms: &'a Vec<TargetManifest>, dir: &str) -> (r: Option<&'a Value>)
    ensures
        r is Some <==> find_manifest(ms@, dir@) is Some,
        r matches Some(v) ==> v@ == find_manifest(ms@, dir@)->0,
{
    let mut i: usize = 0;
    assert(ms@.skip(0) =~= ms@);
    while i < ms.len()
        invariant
            i <= ms@.len(),
            find_manifest(ms@, dir@) == find_manifest(ms@.skip(i as int), dir@),
        decreases ms@.len() - i,
    {
        assert(ms@.skip(i as int)[0] == ms@[i as int]);
        assert(ms@.skip(i as int).drop_first() =~= ms@.skip(i + 1));
        if str_eq(ms[i].dir.as_str(), dir) {
            return match &ms[i].manifest {
                Some(v) => Some(v),
                None => None,
            };
        }
        i = i + 1;
    }
    None
}

/// A symlink to make: where it points, where it lives, and what it holds.
pub struct Symlink {
    pub target: String,
    pub link: String,
    pub contents: String,
}

/// The links of one local dependency: the dependency itself, then the
/// executables it declares whose files exist, by executable name.
pub struct DependencyLinks {
    pub name: String,
    pub dependency: Symlink,
    pub bin_names: Vec<String>,
    pub bins: Vec<Symlink>,
}

/// The links to make in a workspace's `node_modules`, in order; when
/// `failure` is set it is reported after them, and nothing more happens.
/// Otherwise the marker, when set, is written last.
pub struct LinkPlan {
    pub dependencies: Vec<DependencyLinks>,
    pub failure: Option<MonodepError>,
    pub marker: Option<Value>,
}

pub open spec fn missing_target_message(name: Seq<char>) -> Seq<char> {
    "Dependency '"@ + name + "' is missing a target path"@
}

pub open spec fn symlink_is(s: Symlink, target: Seq<char>, link: Seq<char>) -> bool {
    &&& s.target@ == target
    &&& s.link@ == link
    &&& s.contents@ == relative_target(target, link)
}

/// The executable `n` of dependency `k`, whose manifest is `m` and which
/// lives in `t`, gets a link: it is declared and its file exists.
pub open spec fn bin_linked(
    k: Seq<char>,
    m: Option<ValueModel>,
    t: Seq<char>,
    existing: Seq<Seq<char>>,
    n: Seq<char>,
) -> bool {
    m matches Some(mm) && bin_target(k, mm, n) is Some && existing.contains(
        path_join(t, bin_target(k, mm, n)->0),
    )
}

/// The links of dependency `k` (target `t`) are those promised.
pub open spec fn dependency_links_ok(
    d: DependencyLinks,
    nm: Seq<char>,
    k: Seq<char>,
    t: Seq<char>,
    ms: Seq<TargetManifest>,
    existing: Seq<Seq<char>>,
) -> bool {
    let m = find_manifest(ms, t);
    &&& d.name@ == k
    &&& symlink_is(d.dependency, t, path_join(nm, k))
    &&& sorted_keys(texts_of(d.bin_names@))
    &&& forall|n: Seq<char>| #[trigger]
        texts_of(d.bin_names@).contains(n) <==> bin_linked(k, m, t, existing, n)
    &&& d.bins@.len() == d.bin_names@.len()
    &&& forall|j: int|
        0 <= j < d.bins@.len() ==> symlink_is(
            #[trigger] d.bins@[j],
            path_join(t, bin_target(k, m->0, d.bin_names@[j]@)->0),
            path_join(path_join(nm, ".bin"@), d.bin_names@[j]@),
        )
}

/// The index of the first link without a target, or the number of links.
pub open spec fn first_untargeted(links: StrMap<ResolvedDependency>, from: int) -> int
    decreases links.keys().len() - from,
{
    if from < 0 || from >= links.keys().len() {
        links.keys().len() as int
    } else if links.values()[from].target_path is None {
        from
    } else {
        first_untargeted(links, from + 1)
    }
}

pub open spec fn all_bin_names(ds: Seq<DependencyLinks>) -> Seq<Seq<char>>
    decreases ds.len(),
{
    if ds.len() == 0 {
        Seq::empty()
    } else {
        all_bin_names(ds.drop_last()) + texts_of(ds.last().bin_names@)
    }
}

fn bin_links(
    nm: &str,
    k: &String,
    t: &String,
    manifest: Option<&Value>,
    existing: &Vec<String>,
) -> (r: (Vec<String>, Vec<Symlink>))
    ensures
        ({
            let m = match manifest {
                Some(v) => Some(v@),
                None => None::<ValueModel>,
            };
            &&& sorted_keys(texts_of(r.0@))
            &&& forall|n: Seq<char>| #[trigger]
                texts_of(r.0@).contains(n) <==> bin_linked(k@, m, t@, texts_of(existing@), n)
            &&& r.1@.len() == r.0@.len()
            &&& forall|j: int|
                0 <= j < r.1@.len() ==> symlink_is(
                    #[trigger] r.1@[j],
                    path_join(t@, bin_target(k@, m->0, r.0@[j]@)->0),
                    path_join(path_join(nm@, ".bin"@), r.0@[j]@),
                )
        }),
{
    let mut names: Vec<String> = Vec::new();
    let mut links: Vec<Symlink> = Vec::new();
    match manifest {
        None => {
            assert(texts_of(names@) =~= Seq::<Seq<char>>::empty());
        },
        Some(m) => {
            let bins = bin_entries(k.as_str(), m);
            proof {
                use_type_invariant(&bins);
            }
            let bin_dir = join(nm, ".bin");
            let mut j: usize = 0;
            while j < bins.len()
                invariant
                    bins.well_formed(),
                    bin_dir@ == path_join(nm@, ".bin"@),
                    forall|x: Seq<char>| #[trigger] bins.has(x) <==> bin_target(k@, m@, x) is Some,
                    forall|x: Seq<char>| #[trigger]
                        bins.has(x) ==> bins.value_of(x)@ == bin_target(k@, m@, x)->0,
                    j <= bins.keys().len(),
                    sorted_keys(texts_of(names@)),
                    forall|x: Seq<char>| #[trigger]
                        texts_of(names@).contains(x) ==> exists|y: int| 0 <= y < j && bins.keys()[y] == x,
                    forall|y: int|
                        0 <= y < j && bin_linked(k@, Some(m@), t@, texts_of(existing@), #[trigger] bins.keys()[y])
                            ==> texts_of(names@).contains(bins.keys()[y]),
                    forall|x: Seq<char>| #[trigger]
                        texts_of(names@).contains(x) ==> bin_linked(k@, Some(m@), t@, texts_of(existing@), x),
                    links@.len() == names@.len(),
                    forall|i: int|
                        0 <= i < links@.len() ==> symlink_is(
                            #[trigger] links@[i],
                            path_join(t@, bin_target(k@, m@, names@[i]@)->0),
                            path_join(path_join(nm@, ".bin"@), names@[i]@),
                        ),
                decreases bins.keys().len() - j,
            {
                let name = bins.key_at(j);
                let rel = bins.value_at(j);
                proof {
                    bins.lemma_key_index(j as int);
                }
                let bp = join(t.as_str(), rel.as_str());
                if contains_text(existing, bp.as_str()) {
                    let link = join(bin_dir.as_str(), name.as_str());
                    let contents = relative_link_target(bp.as_str(), link.as_str());
                    let ghost prev = texts_of(names@);
                    names.push(name.clone());
                    links.push(Symlink { target: bp, link, contents });
                    proof {
                        let now = texts_of(names@);
                        assert(now =~= prev.push(name@));
                        assert forall|a: int, b: int| 0 <= a < b < now.len() implies crate::text::str_lt(
                            #[trigger] now[a],
                            #[trigger] now[b],
                        ) by {
                            if b == now.len() - 1 {
                                assert(prev.contains(now[a]));
                                let y = choose|y: int| 0 <= y < j && bins.keys()[y] == now[a];
                                assert(crate::text::str_lt(bins.keys()[y], bins.keys()[j as int]));
                            } else {
                                assert(crate::text::str_lt(prev[a], prev[b]));
                            }
                        }
                        assert forall|x: Seq<char>| #[trigger] now.contains(x) implies exists|y: int|
                            0 <= y < j + 1 && bins.keys()[y] == x by {
                            if x == name@ {
                                assert(bins.keys()[j as int] == x);
                            } else {
                                assert(prev.contains(x));
                            }
                        }
                        assert(now[now.len() - 1] == name@);
                        assert(now.contains(bins.keys()[j as int]));
                        assert forall|y: int|
                            0 <= y < j + 1 && bin_linked(k@, Some(m@), t@, texts_of(existing@), #[trigger] bins.keys()[y])
                                implies now.contains(bins.keys()[y]) by {
                            if y < j {
                                assert(prev.contains(bins.keys()[y]));
                                let z = choose|z: int| 0 <= z < prev.len() && prev[z] == bins.keys()[y];
                                assert(now[z] == prev[z]);
                            }
                        }
                        assert forall|x: Seq<char>| #[trigger]
                            now.contains(x) implies bin_linked(k@, Some(m@), t@, texts_of(existing@), x) by {
                            if x != name@ {
                                assert(prev.contains(x));
                            }
                        }
                    }
                } else {
                    proof {
                        assert(!bin_linked(k@, Some(m@), t@, texts_of(existing@), bins.keys()[j as int]));
                    }
                }
                j = j + 1;
            }
            proof {
                assert forall|x: Seq<char>|
                    bin_linked(k@, Some(m@), t@, texts_of(existing@), x) implies #[trigger] texts_of(names@).contains(x) by {
                    {
                        assert(bins.has(x));
                        bins.lemma_has(x);
                        let y = crate::strmap::key_index(bins.keys(), x);
                        assert(bin_linked(k@, Some(m@), t@, texts_of(existing@), bins.keys()[y]));
                    }
                }
            }
        },
    }
    (names, links)
}

/// Whether `s` is among the texts of `v`.
pub fn contains_text(v: &Vec<String>, s: &str) -> (r: bool)
    ensures
        r == texts_of(v@).contains(s@),
{
    let mut i: usize = 0;
    while i < v.len()
        invariant
            i <= v@.len(),
            forall|j: int| 0 <= j < i ==> v@[j]@ != s@,
        decreases v@.len() - i,
    {
        if str_eq(v[i].as_str(), s) {
            assert(texts_of(v@)[i as int] == s@);
            return true;
        }
        i = i + 1;
    }
    proof {
        if texts_of(v@).contains(s@) {
            let j = choose|j: int| 0 <= j < texts_of(v@).len() && texts_of(v@)[j] == s@;
            assert(v@[j]@ == s@);
        }
    }
    false
}

/// The links of a workspace's local dependencies, in dependency-name
/// order: each dependency's directory under `node_modules`, then the
/// executables its manifest declares whose files exist, under
/// `node_modules/.bin`. A dependency without a target stops the linking
/// with an error. When anything was linked, the marker records the linked
/// names (see `managed_marker`). `target_manifests` holds what could be
/// read of each target's `package.json`, `existing_paths` the executable
/// files that exist.
pub fn plan_local_links(
    workspace_path: &str,
    links: &StrMap<ResolvedDependency>,
    target_manifests: &Vec<TargetManifest>,
    existing_paths: &Vec<String>,
) -> (r: LinkPlan)
    ensures
        ({
            let nm = path_join(workspace_path@, "node_modules"@);
            let stop = first_untargeted(*links, 0);
            &&& r.dependencies@.len() == stop
            &&& forall|i: int|
                0 <= i < stop ==> dependency_links_ok(
                    #[trigger] r.dependencies@[i],
                    nm,
                    links.keys()[i],
                    links.values()[i]@.target_path->0,
                    target_manifests@,
                    texts_of(existing_paths@),
                )
            &&& stop < links.keys().len() ==> (r.failure matches Some(e) && is_general(
                e,
                missing_target_message(links.keys()[stop]),
            ))
            &&& stop == links.keys().len() ==> r.failure is None
            &&& (r.failure is Some || links.keys().len() == 0) ==> r.marker is None
            &&& (r.failure is None && links.keys().len() > 0) ==> (r.marker matches Some(mk) && exists|
                b: Seq<Seq<char>>,
                d: Seq<Seq<char>>,
            |
                sorted_texts(b) && b.to_multiset() == all_bin_names(r.dependencies@).to_multiset()
                    && sorted_texts(d) && d.to_multiset() == links.keys().to_multiset() && mk@
                    == #[trigger] marker_doc(b, d))
        }),
{
    let nm = join(workspace_path, "node_modules");
    let mut deps: Vec<DependencyLinks> = Vec::new();
    let mut linked: Vec<String> = Vec::new();
    let mut bins_all: Vec<String> = Vec::new();
    let mut i: usize = 0;
    assert(texts_of(linked@) =~= links.keys().take(0));
    assert(texts_of(bins_all@) =~= all_bin_names(deps@));
    while i < links.len()
        invariant
            nm@ == path_join(workspace_path@, "node_modules"@),
            i <= links.keys().len(),
            first_untargeted(*links, 0) == first_untargeted(*links, i as int),
            deps@.len() == i,
            forall|j: int|
                0 <= j < i ==> dependency_links_ok(
                    #[trigger] deps@[j],
                    nm@,
                    links.keys()[j],
                    links.values()[j]@.target_path->0,
                    target_manifests@,
                    texts_of(existing_paths@),
                ),
            texts_of(linked@) == links.keys().take(i as int),
            texts_of(bins_all@) == all_bin_names(deps@),
        decreases links.keys().len() - i,
    {
        let name = links.key_at(i);
        let dep = links.value_at(i);
        match &dep.target_path {
            None => {
                proof {
                    assert(first_untargeted(*links, i as int) == i);
                }
                let msg = concat3("Dependency '", name.as_str(), "' is missing a target path");
                return LinkPlan { dependencies: deps, failure: Some(MonodepError::General(msg)), marker: None };
            },
            Some(t) => {
                let link = join(nm.as_str(), name.as_str());
                let contents = relative_link_target(t.as_str(), link.as_str());
                let manifest = find_manifest_exec(target_manifests, t.as_str());
                let (bin_names, bins) = bin_links(nm.as_str(), name, t, manifest, existing_paths);
                let ghost bn = texts_of(bin_names@);
                let mut k: usize = 0;
                let ghost start = texts_of(bins_all@);
                while k < bin_names.len()
                    invariant
                        k <= bin_names@.len(),
                        bn == texts_of(bin_names@),
                        texts_of(bins_all@) == start + bn.take(k as int),
                    decreases bin_names@.len() - k,
                {
                    let ghost prev = texts_of(bins_all@);
                    bins_all.push(bin_names[k].clone());
                    assert(texts_of(bins_all@) =~= prev.push(bn[k as int]));
                    assert(bn.take(k + 1) =~= bn.take(k as int).push(bn[k as int]));
                    k = k + 1;
                }
                assert(bn.take(bin_names@.len() as int) =~= bn);
                let ghost prev_linked = texts_of(linked@);
                linked.push(name.clone());
                let d = DependencyLinks {
                    name: name.clone(),
                    dependency: Symlink { target: t.clone(), link, contents },
                    bin_names,
                    bins,
                };
                let ghost prev_deps = deps@;
                deps.push(d);
                proof {
                    assert(texts_of(linked@) =~= prev_linked.push(name@));
                    assert(links.keys().take(i + 1) =~= links.keys().take(i as int).push(links.keys()[i as int]));
                    assert(deps@.drop_last() =~= prev_deps);
                    assert(links.values()[i as int] == *dep);
                }
            },
        }
        i = i + 1;
    }
    proof {
        assert(links.keys().take(links.keys().len() as int) =~= links.keys());
    }
    if links.len() == 0 {
        return LinkPlan { dependencies: deps, failure: None, marker: None };
    }
    let marker = managed_marker(&linked, &bins_all);
    LinkPlan { dependencies: deps, failure: None, marker: Some(marker) }
}


// ── Why a dependency is there ───────────────────────────────────────

/// A workspace that links the dependency locally.
pub struct LocalReason {
    pub kind: String,
    pub owner: String,
    pub dependency: ResolvedDependency,
}

/// A workspace that takes the dependency from the registry.
pub struct RegistryReason {
    pub owner: String,
    pub group: String,
    pub spec: String,
}

pub struct WhyReport {
    pub dependency: String,
    pub local_reasons: Vec<LocalReason>,
    pub registry_reasons: Vec<RegistryReason>,
    pub selected_workspaces: Vec<String>,
}

/// The workspaces, among the first `n` of the plan's links in name order,
/// that link `d` locally.
pub open spec fn local_owners(links: StrMap<StrMap<ResolvedDependency>>, d: Seq<char>, n: int) -> Seq<
    Seq<char>,
>
    decreases n,
{
    if n <= 0 || n > links.keys().len() {
        Seq::empty()
    } else {
        let r = local_owners(links, d, n - 1);
        if links.values()[n - 1].has(d) {
            r.push(links.keys()[n - 1])
        } else {
            r
        }
    }
}

/// The registry entries of `d` among the dependencies `deps` of `owner`:
/// owner, group and spec of each entry named `d` whose spec is neither
/// `workspace:` nor `file:`.
pub open spec fn registry_matches(owner: Seq<char>, deps: Seq<crate::models::DependencyView>, d: Seq<char>) -> Seq<
    (Seq<char>, Seq<char>, Seq<char>),
>
    decreases deps.len(),
{
    if deps.len() == 0 {
        Seq::empty()
    } else {
        let r = registry_matches(owner, deps.drop_last(), d);
        let x = deps.last();
        if x.name == d && !has_prefix(x.spec, "workspace:"@) && !has_prefix(x.spec, "file:"@) {
            r.push((owner, x.group, x.spec))
        } else {
            r
        }
    }
}

/// The registry entries of `d` in the workspaces `names`, in that order.
pub open spec fn registry_entries(
    ws: StrMap<WorkspacePackage>,
    opts: SyncOptions,
    d: Seq<char>,
    names: Seq<Seq<char>>,
) -> Seq<(Seq<char>, Seq<char>, Seq<char>)>
    decreases names.len(),
{
    if names.len() == 0 {
        Seq::empty()
    } else {
        registry_entries(ws, opts, d, names.drop_last()) + registry_matches(
            names.last(),
            manifest_deps(ws.value_of(names.last())@.manifest, opts),
            d,
        )
    }
}

/// Dependency entry `x` names `d` and is taken from the registry: its spec
/// is neither `workspace:` nor `file:`.
pub open spec fn registry_entry_of(x: crate::models::DependencyView, d: Seq<char>) -> bool {
    x.name == d && !has_prefix(x.spec, "workspace:"@) && !has_prefix(x.spec, "file:"@)
}

proof fn lemma_registry_matches(owner: Seq<char>, deps: Seq<crate::models::DependencyView>, d: Seq<char>)
    ensures
        forall|x: (Seq<char>, Seq<char>, Seq<char>)|
            #[trigger] registry_matches(owner, deps, d).contains(x) ==> x.0 == owner && exists|j: int|
                0 <= j < deps.len() && !has_prefix(deps[j].spec, "workspace:"@) && !has_prefix(deps[j].spec, "file:"@)
                    && deps[j].name == d && x.1 == deps[j].group && x.2 == deps[j].spec,
        forall|j: int|
            0 <= j < deps.len() && (#[trigger] deps[j]).name == d && !has_prefix(deps[j].spec, "workspace:"@)
                && !has_prefix(deps[j].spec, "file:"@) ==> registry_matches(owner, deps, d).contains(
                (owner, deps[j].group, deps[j].spec),
            ),
    decreases deps.len(),
{
    if deps.len() > 0 {
        let pre = deps.drop_last();
        let last = deps.last();
        lemma_registry_matches(owner, pre, d);
        let r = registry_matches(owner, pre, d);
        let keep = last.name == d && !has_prefix(last.spec, "workspace:"@) && !has_prefix(last.spec, "file:"@);
        assert forall|x: (Seq<char>, Seq<char>, Seq<char>)|
            #[trigger] registry_matches(owner, deps, d).contains(x) implies x.0 == owner && exists|j: int|
                0 <= j < deps.len() && !has_prefix(deps[j].spec, "workspace:"@) && !has_prefix(deps[j].spec, "file:"@)
                    && deps[j].name == d && x.1 == deps[j].group && x.2 == deps[j].spec by {
            let full = registry_matches(owner, deps, d);
            let y = choose|y: int| 0 <= y < full.len() && full[y] == x;
            if y < r.len() {
                assert(full[y] == r[y]);
                assert(r.contains(x));
                let j = choose|j: int|
                    0 <= j < pre.len() && !has_prefix(pre[j].spec, "workspace:"@) && !has_prefix(pre[j].spec, "file:"@)
                        && pre[j].name == d && x.1 == pre[j].group && x.2 == pre[j].spec;
                assert(deps[j] == pre[j]);
            } else {
                assert(keep);
                assert(deps[deps.len() - 1] == last);
            }
        }
        assert forall|j: int|
            0 <= j < deps.len() && (#[trigger] deps[j]).name == d && !has_prefix(deps[j].spec, "workspace:"@)
                && !has_prefix(deps[j].spec, "file:"@) implies registry_matches(owner, deps, d).contains(
                (owner, deps[j].group, deps[j].spec),
            ) by {
            let full = registry_matches(owner, deps, d);
            if j < pre.len() {
                assert(pre[j] == deps[j]);
                let y = choose|y: int| 0 <= y < r.len() && r[y] == (owner, pre[j].group, pre[j].spec);
                assert(full[y] == r[y]);
            } else {
                assert(deps[j] == last);
                assert(full[r.len() as int] == (owner, last.group, last.spec));
            }
        }
    }
}

/// The registry reasons are exactly the registry entries: each names a
/// selected workspace and one of its dependency entries that names the
/// dependency with a spec that is neither `workspace:` nor `file:` (one
/// that is not linked locally), and each such entry gives one.
pub proof fn lemma_registry_entries_exact(
    ws: StrMap<WorkspacePackage>,
    opts: SyncOptions,
    d: Seq<char>,
    names: Seq<Seq<char>>,
)
    ensures
        forall|x: (Seq<char>, Seq<char>, Seq<char>)|
            #[trigger] registry_entries(ws, opts, d, names).contains(x) ==> !has_prefix(x.2, "workspace:"@)
                && !has_prefix(x.2, "file:"@) && exists|i: int, j: int|
                0 <= i < names.len() && x.0 == names[i] && 0 <= j < manifest_deps(ws.value_of(names[i])@.manifest, opts).len()
                    && manifest_deps(ws.value_of(names[i])@.manifest, opts)[j].name == d && x.1
                    == manifest_deps(ws.value_of(names[i])@.manifest, opts)[j].group && x.2
                    == manifest_deps(ws.value_of(names[i])@.manifest, opts)[j].spec,
        forall|i: int, j: int|
            0 <= i < names.len() && 0 <= j < manifest_deps(ws.value_of(names[i])@.manifest, opts).len()
                && registry_entry_of(#[trigger] manifest_deps(ws.value_of(names[i])@.manifest, opts)[j], d)
                ==> registry_entries(ws, opts, d, names).contains(
                (
                    names[i],
                    manifest_deps(ws.value_of(names[i])@.manifest, opts)[j].group,
                    manifest_deps(ws.value_of(names[i])@.manifest, opts)[j].spec,
                ),
            ),
    decreases names.len(),
{
    if names.len() > 0 {
        let pre = names.drop_last();
        let k = names.last();
        let deps = manifest_deps(ws.value_of(k)@.manifest, opts);
        lemma_registry_entries_exact(ws, opts, d, pre);
        lemma_registry_matches(k, deps, d);
        let a = registry_entries(ws, opts, d, pre);
        let b = registry_matches(k, deps, d);
        let full = registry_entries(ws, opts, d, names);
        assert(full == a + b);
        assert forall|x: (Seq<char>, Seq<char>, Seq<char>)| #[trigger] full.contains(x) implies !has_prefix(
            x.2,
            "workspace:"@,
        ) && !has_prefix(x.2, "file:"@) && exists|i: int, j: int|
            0 <= i < names.len() && x.0 == names[i] && 0 <= j < manifest_deps(ws.value_of(names[i])@.manifest, opts).len()
                && manifest_deps(ws.value_of(names[i])@.manifest, opts)[j].name == d && x.1
                == manifest_deps(ws.value_of(names[i])@.manifest, opts)[j].group && x.2
                == manifest_deps(ws.value_of(names[i])@.manifest, opts)[j].spec by {
            let y = choose|y: int| 0 <= y < full.len() && full[y] == x;
            if y < a.len() {
                assert(full[y] == a[y]);
                assert(a.contains(x));
                let (i, j) = choose|i: int, j: int|
                    0 <= i < pre.len() && x.0 == pre[i] && 0 <= j < manifest_deps(ws.value_of(pre[i])@.manifest, opts).len()
                        && manifest_deps(ws.value_of(pre[i])@.manifest, opts)[j].name == d && x.1
                        == manifest_deps(ws.value_of(pre[i])@.manifest, opts)[j].group && x.2
                        == manifest_deps(ws.value_of(pre[i])@.manifest, opts)[j].spec;
                assert(names[i] == pre[i]);
            } else {
                assert(full[y] == b[y - a.len()]);
                assert(b.contains(x));
                let j = choose|j: int|
                    0 <= j < deps.len() && !has_prefix(deps[j].spec, "workspace:"@) && !has_prefix(deps[j].spec, "file:"@)
                        && deps[j].name == d && x.1 == deps[j].group && x.2 == deps[j].spec;
                assert(names[names.len() - 1] == k);
            }
        }
        assert forall|i: int, j: int|
            0 <= i < names.len() && 0 <= j < manifest_deps(ws.value_of(names[i])@.manifest, opts).len()
                && registry_entry_of(#[trigger] manifest_deps(ws.value_of(names[i])@.manifest, opts)[j], d)
                implies full.contains(
                (
                    names[i],
                    manifest_deps(ws.value_of(names[i])@.manifest, opts)[j].group,
                    manifest_deps(ws.value_of(names[i])@.manifest, opts)[j].spec,
                ),
            ) by {
            if i < pre.len() {
                assert(pre[i] == names[i]);
                let x = (
                    names[i],
                    manifest_deps(ws.value_of(names[i])@.manifest, opts)[j].group,
                    manifest_deps(ws.value_of(names[i])@.manifest, opts)[j].spec,
                );
                assert(a.contains(x));
                let y = choose|y: int| 0 <= y < a.len() && a[y] == x;
                assert(full[y] == a[y]);
            } else {
                assert(names[i] == k);
                let x = (k, deps[j].group, deps[j].spec);
                assert(b.contains(x));
                let y = choose|y: int| 0 <= y < b.len() && b[y] == x;
                assert(full[a.len() + y] == b[y]);
            }
        }
    }
}

pub open spec fn not_found_message(d: Seq<char>) -> Seq<char> {
    "Dependency '"@ + d + "' was not found in the selected workspaces"@
}

pub open spec fn registry_view(r: Seq<RegistryReason>) -> Seq<(Seq<char>, Seq<char>, Seq<char>)> {
    r.map_values(|x: RegistryReason| (x.owner@, x.group@, x.spec@))
}

fn push_registry_matches(
    out: &mut Vec<RegistryReason>,
    owner: &String,
    deps: &Vec<crate::models::ManifestDependency>,
    d: &str,
)
    ensures
        registry_view(final(out)@) == registry_view(old(out)@) + registry_matches(owner@, deps_view(deps@), d@),
{
    let ghost start = registry_view(out@);
    let mut i: usize = 0;
    assert(deps_view(deps@).take(0) =~= Seq::<crate::models::DependencyView>::empty());
    assert(registry_view(out@) =~= start + registry_matches(owner@, deps_view(deps@).take(0), d@));
    while i < deps.len()
        invariant
            i <= deps@.len(),
            registry_view(out@) == start + registry_matches(owner@, deps_view(deps@).take(i as int), d@),
        decreases deps@.len() - i,
    {
        let x = &deps[i];
        proof {
            assert(deps_view(deps@).take(i + 1).drop_last() =~= deps_view(deps@).take(i as int));
            assert(deps_view(deps@).take(i + 1).last() == x@);
        }
        let ghost prev = registry_view(out@);
        if str_eq(x.name.as_str(), d) && !starts_with(x.spec.as_str(), "workspace:") && !starts_with(
            x.spec.as_str(),
            "file:",
        ) {
            out.push(RegistryReason { owner: owner.clone(), group: x.group.clone(), spec: x.spec.clone() });
            assert(registry_view(out@) =~= prev.push((owner@, x.group@, x.spec@)));
        }
        i = i + 1;
    }
    assert(deps_view(deps@).take(deps@.len() as int) =~= deps_view(deps@));
}

/// Why `dependency_name` is a dependency of the plan's workspaces: the
/// workspaces that link it locally (in name order) and the entries that
/// take it from the registry (in the order of the selected workspaces and
/// of their dependencies). Finding neither is an error.
pub fn why(
    plan: &SyncPlan,
    workspaces: &StrMap<WorkspacePackage>,
    dependency_name: &str,
    options: &SyncOptions,
) -> (r: Result<WhyReport, MonodepError>)
    requires
        forall|i: int|
            0 <= i < plan.selected_workspaces@.len() ==> workspaces.has(
                (#[trigger] plan.selected_workspaces@[i])@,
            ),
    ensures
        ({
            let owners = local_owners(plan.workspace_links, dependency_name@, plan.workspace_links.keys().len() as int);
            let entries = registry_entries(*workspaces, *options, dependency_name@, strings_view(plan.selected_workspaces@));
            &&& r is Err <==> owners.len() == 0 && entries.len() == 0
            &&& r matches Err(e) ==> is_general(e, not_found_message(dependency_name@))
            &&& r matches Ok(report) ==> {
                &&& report.dependency@ == dependency_name@
                &&& strings_view(report.selected_workspaces@) == strings_view(plan.selected_workspaces@)
                &&& report.local_reasons@.len() == owners.len()
                &&& forall|i: int| 0 <= i < owners.len() ==> {
                    let lr = #[trigger] report.local_reasons@[i];
                    &&& lr.owner@ == owners[i]
                    &&& lr.dependency@ == plan.workspace_links.value_of(owners[i]).value_of(dependency_name@)@
                    &&& lr.kind@ == lr.dependency@.kind
                }
                &&& registry_view(report.registry_reasons@) == entries
            }
        }),
        r matches Ok(report) ==> forall|i: int|
            0 <= i < report.registry_reasons@.len() ==> !has_prefix(
                (#[trigger] report.registry_reasons@[i]).spec@,
                "workspace:"@,
            ) && !has_prefix(report.registry_reasons@[i].spec@, "file:"@),
{
    let links = &plan.workspace_links;
    let mut locals: Vec<LocalReason> = Vec::new();
    let mut i: usize = 0;
    while i < links.len()
        invariant
            *links == plan.workspace_links,
            i <= links.keys().len(),
            locals@.len() == local_owners(*links, dependency_name@, i as int).len(),
            forall|j: int| 0 <= j < locals@.len() ==> {
                let lr = #[trigger] locals@[j];
                let o = local_owners(*links, dependency_name@, i as int)[j];
                &&& lr.owner@ == o
                &&& lr.dependency@ == links.value_of(o).value_of(dependency_name@)@
                &&& lr.kind@ == lr.dependency@.kind
            },
        decreases links.keys().len() - i,
    {
        let owner = links.key_at(i);
        let m = links.value_at(i);
        proof {
            use_type_invariant(links);
            links.lemma_key_index(i as int);
        }
        let ghost before = local_owners(*links, dependency_name@, i as int);
        match m.get(dependency_name) {
            Some(dep) => {
                let dup = dep.duplicate();
                locals.push(LocalReason { kind: dep.kind.clone(), owner: owner.clone(), dependency: dup });
                proof {
                    let now = local_owners(*links, dependency_name@, i + 1);
                    assert(now == before.push(owner@));
                    assert forall|j: int| 0 <= j < locals@.len() implies {
                        let lr = #[trigger] locals@[j];
                        let o = now[j];
                        &&& lr.owner@ == o
                        &&& lr.dependency@ == links.value_of(o).value_of(dependency_name@)@
                        &&& lr.kind@ == lr.dependency@.kind
                    } by {
                        if j < before.len() {
                            assert(now[j] == before[j]);
                        }
                    }
                }
            },
            None => {},
        }
        i = i + 1;
    }
    let sel = &plan.selected_workspaces;
    let mut registry: Vec<RegistryReason> = Vec::new();
    let mut k: usize = 0;
    assert(registry_view(registry@) =~= registry_entries(*workspaces, *options, dependency_name@, strings_view(sel@).take(0)));
    while k < sel.len()
        invariant
            *sel == plan.selected_workspaces,
            forall|x: int| 0 <= x < sel@.len() ==> workspaces.has((#[trigger] sel@[x])@),
            k <= sel@.len(),
            registry_view(registry@) == registry_entries(*workspaces, *options, dependency_name@, strings_view(sel@).take(k as int)),
        decreases sel@.len() - k,
    {
        let name = &sel[k];
        assert(workspaces.has(sel@[k as int]@));
        let w = workspaces.get_present(name.as_str());
        let deps = dependency_entries(&w.manifest, options);
        push_registry_matches(&mut registry, name, &deps, dependency_name);
        proof {
            let t = strings_view(sel@).take(k + 1);
            assert(t.drop_last() =~= strings_view(sel@).take(k as int));
            assert(t.last() == name@);
        }
        k = k + 1;
    }
    proof {
        assert(strings_view(sel@).take(sel@.len() as int) =~= strings_view(sel@));
    }
    if locals.len() == 0 && registry.len() == 0 {
        return Err(MonodepError::General(concat3("Dependency '", dependency_name, "' was not found in the selected workspaces")));
    }
    let mut names: Vec<String> = Vec::new();
    let mut c: usize = 0;
    while c < sel.len()
        invariant
            c <= sel@.len(),
            names@.len() == c,
            forall|x: int| 0 <= x < c ==> (#[trigger] names@[x])@ == sel@[x]@,
        decreases sel@.len() - c,
    {
        names.push(sel[c].clone());
        c = c + 1;
    }
    assert(strings_view(names@) =~= strings_view(sel@));
    proof {
        let entries = registry_entries(*workspaces, *options, dependency_name@, strings_view(plan.selected_workspaces@));
        lemma_registry_entries_exact(*workspaces, *options, dependency_name@, strings_view(plan.selected_workspaces@));
        assert forall|i: int| 0 <= i < registry@.len() implies !has_prefix(
            (#[trigger] registry@[i]).spec@,
            "workspace:"@,
        ) && !has_prefix(registry@[i].spec@, "file:"@) by {
            assert(registry_view(registry@)[i] == (registry@[i].owner@, registry@[i].group@, registry@[i].spec@));
            assert(entries.contains(registry_view(registry@)[i]));
        }
    }
    Ok(WhyReport {
        dependency: dependency_name.to_owned(),
        local_reasons: locals,
        registry_reasons: registry,
        selected_workspaces: names,
    })
}


// ── Health of the links ─────────────────────────────────────────────

/// What the file system shows of a planned link: whether a symlink is
/// there, where it resolves to (when it does), and the canonical form of
/// the dependency's target (when that could be had).
pub struct LinkProbe {
    pub link: String,
    pub is_symlink: bool,
    pub resolved: Option<String>,
    pub target_canonical: Option<String>,
}

pub open spec fn find_probe(ps: Seq<LinkProbe>, link: Seq<char>) -> Option<LinkProbe>
    decreases ps.len(),
{
    if ps.len() == 0 {
        None
    } else if ps[0].link@ == link {
        Some(ps[0])
    } else {
        find_probe(ps.drop_first(), link)
    }
}

fn find_probe_exec<'a>(ps: &'a Vec<LinkProbe>, link: &str) -> (r: Option<&'a LinkProbe>)
    ensures
        r is Some <==> find_probe(ps@, link@) is Some,
        r matches Some(p) ==> *p == find_probe(ps@, link@)->0,
{
    let mut i: usize = 0;
    assert(ps@.skip(0) =~= ps@);
    while i < ps.len()
        invariant
            i <= ps@.len(),
            find_probe(ps@, link@) == find_probe(ps@.skip(i as int), link@),
        decreases ps@.len() - i,
    {
        assert(ps@.skip(i as int)[0] == ps@[i as int]);
        assert(ps@.skip(i as int).drop_first() =~= ps@.skip(i + 1));
        if str_eq(ps[i].link.as_str(), link) {
            return Some(&ps[i]);
        }
        i = i + 1;
    }
    None
}

/// The problem with the link of dependency `k` (resolved as `rv`) of a
/// workspace at `ws_path`, if any: no symlink there (or nothing known of
/// it), or a symlink that resolves elsewhere than the target.
pub open spec fn link_issue(ws_path: Seq<char>, k: Seq<char>, rv: ResolvedView, ps: Seq<LinkProbe>) -> Option<
    Seq<char>,
> {
    let path = path_join(path_join(ws_path, "node_modules"@), k);
    match find_probe(ps, path) {
        Some(p) if p.is_symlink => match (rv.target_path, p.resolved) {
            (Some(t), Some(r)) => {
                let ct = match p.target_canonical {
                    Some(c) => c@,
                    None => t,
                };
                if r@ != ct {
                    Some("Wrong symlink target: "@ + path)
                } else {
                    None
                }
            },
            _ => None,
        },
        _ => Some("Missing workspace symlink: "@ + path),
    }
}

/// The problems with the first `n` links of one workspace, in name order.
pub open spec fn workspace_issues(ws_path: Seq<char>, links: StrMap<ResolvedDependency>, ps: Seq<LinkProbe>, n: int) -> Seq<
    Seq<char>,
>
    decreases n,
{
    if n <= 0 || n > links.keys().len() {
        Seq::empty()
    } else {
        let r = workspace_issues(ws_path, links, ps, n - 1);
        match link_issue(ws_path, links.keys()[n - 1], links.values()[n - 1]@, ps) {
            Some(i) => r.push(i),
            None => r,
        }
    }
}

/// The problems with the links of the first `n` workspaces of the plan.
pub open spec fn plan_issues(
    links: StrMap<StrMap<ResolvedDependency>>,
    ws: StrMap<WorkspacePackage>,
    ps: Seq<LinkProbe>,
    n: int,
) -> Seq<Seq<char>>
    decreases n,
{
    if n <= 0 || n > links.keys().len() {
        Seq::empty()
    } else {
        let m = links.values()[n - 1];
        plan_issues(links, ws, ps, n - 1) + workspace_issues(
            ws.value_of(links.keys()[n - 1])@.path,
            m,
            ps,
            m.keys().len() as int,
        )
    }
}

pub struct DoctorReport {
    pub healthy: bool,
    pub issues: Vec<String>,
    pub package_manager: String,
    pub root: String,
}

fn push_workspace_issues(
    out: &mut Vec<String>,
    ws_path: &str,
    links: &StrMap<ResolvedDependency>,
    probes: &Vec<LinkProbe>,
)
    ensures
        texts_of(final(out)@) == texts_of(old(out)@) + workspace_issues(
            ws_path@,
            *links,
            probes@,
            links.keys().len() as int,
        ),
{
    let ghost start = texts_of(out@);
    let nm = join(ws_path, "node_modules");
    let mut i: usize = 0;
    assert(texts_of(out@) =~= start + workspace_issues(ws_path@, *links, probes@, 0));
    while i < links.len()
        invariant
            nm@ == path_join(ws_path@, "node_modules"@),
            i <= links.keys().len(),
            texts_of(out@) == start + workspace_issues(ws_path@, *links, probes@, i as int),
        decreases links.keys().len() - i,
    {
        let name = links.key_at(i);
        let dep = links.value_at(i);
        let path = join(nm.as_str(), name.as_str());
        let ghost prev = texts_of(out@);
        let issue: Option<String> = match find_probe_exec(probes, path.as_str()) {
            Some(p) if p.is_symlink => match (&dep.target_path, &p.resolved) {
                (Some(t), Some(r)) => {
                    let ct = match &p.target_canonical {
                        Some(c) => c.clone(),
                        None => t.clone(),
                    };
                    if !str_eq(r.as_str(), ct.as_str()) {
                        Some(concat("Wrong symlink target: ", path.as_str()))
                    } else {
                        None
                    }
                },
                _ => None,
            },
            _ => Some(concat("Missing workspace symlink: ", path.as_str())),
        };
        proof {
            assert(links.values()[i as int] == *dep);
        }
        match issue {
            Some(x) => {
                out.push(x);
                assert(texts_of(out@) =~= prev.push(x@));
            },
            None => {},
        }
        i = i + 1;
    }
}

/// Whether every planned link is in place: a symlink at
/// `node_modules/<name>` of each workspace, resolving to its target. The
/// problems are listed in workspace and dependency name order.
pub fn doctor(plan: &SyncPlan, workspaces: &StrMap<WorkspacePackage>, probes: &Vec<LinkProbe>) -> (r: (
    bool,
    DoctorReport,
))
    requires
        forall|k: Seq<char>| #[trigger] plan.workspace_links.has(k) ==> workspaces.has(k),
    ensures
        ({
            let issues = plan_issues(plan.workspace_links, *workspaces, probes@, plan.workspace_links.keys().len() as int);
            &&& texts_of(r.1.issues@) == issues
            &&& r.0 == (issues.len() == 0)
            &&& r.1.healthy == r.0
            &&& r.1.package_manager@ == plan.package_manager@
            &&& r.1.root@ == plan.root@
        }),
{
    let links = &plan.workspace_links;
    let mut issues: Vec<String> = Vec::new();
    let mut i: usize = 0;
    assert(texts_of(issues@) =~= plan_issues(*links, *workspaces, probes@, 0));
    while i < links.len()
        invariant
            *links == plan.workspace_links,
            forall|k: Seq<char>| #[trigger] links.has(k) ==> workspaces.has(k),
            i <= links.keys().len(),
            texts_of(issues@) == plan_issues(*links, *workspaces, probes@, i as int),
        decreases links.keys().len() - i,
    {
        let name = links.key_at(i);
        let m = links.value_at(i);
        proof {
            use_type_invariant(links);
            links.lemma_key_index(i as int);
        }
        let w = workspaces.get_present(name.as_str());
        push_workspace_issues(&mut issues, w.path.as_str(), m, probes);
        i = i + 1;
    }
    let healthy = issues.len() == 0;
    (healthy, DoctorReport {
        healthy,
        issues,
        package_manager: plan.package_manager.clone(),
        root: plan.root.clone(),
    })
}

// ── The steps of a sync ─────────────────────────────────────────────

/// Which manifests a workspace directory has.
pub struct ManifestFiles {
    pub path: String,
    pub has_package_json: bool,
    pub has_pyproject: bool,
}

/// One step of a sync, in the order they run; the first that fails stops
/// the sync.
pub enum SyncStep {
    /// The package manager's install, with the local dependencies hidden
    /// from it (see `run_install`).
    Install { workspace_path: String, package_manager: String, local_dep_names: Vec<String> },
    /// `uv sync` (see `run_uv_sync`).
    UvSync { workspace_path: String },
    /// The workspace's local links (see `plan_local_links`), from the
    /// plan's links of that workspace (none when it has no entry).
    LinkLocal { workspace: String, workspace_path: String },
    /// Deduplication across these workspaces (see `deduplicate_workspaces`).
    Deduplicate { workspace_paths: Vec<String> },
    /// Pruning of the store against these workspaces (see `prune_store`).
    PruneStore { workspace_paths: Vec<String> },
}

pub enum StepView {
    Install(Seq<char>, Seq<char>, Seq<Seq<char>>),
    UvSync(Seq<char>),
    LinkLocal(Seq<char>, Seq<char>),
    Deduplicate(Seq<Seq<char>>),
    PruneStore(Seq<Seq<char>>),
}

impl View for SyncStep {
    type V = StepView;

    open spec fn view(&self) -> StepView {
        match self {
            SyncStep::Install { workspace_path, package_manager, local_dep_names } => StepView::Install(
                workspace_path@,
                package_manager@,
                texts_of(local_dep_names@),
            ),
            SyncStep::UvSync { workspace_path } => StepView::UvSync(workspace_path@),
            SyncStep::LinkLocal { workspace, workspace_path } => StepView::LinkLocal(
                workspace@,
                workspace_path@,
            ),
            SyncStep::Deduplicate { workspace_paths } => StepView::Deduplicate(texts_of(workspace_paths@)),
            SyncStep::PruneStore { workspace_paths } => StepView::PruneStore(texts_of(workspace_paths@)),
        }
    }
}

pub open spec fn steps_view(s: Seq<SyncStep>) -> Seq<StepView> {
    s.map_values(|x: SyncStep| x@)
}

/// The manifests of the workspace at `path`, by the first record of it;
/// none when it has no record.
pub open spec fn files_of(fs: Seq<ManifestFiles>, path: Seq<char>) -> (bool, bool)
    decreases fs.len(),
{
    if fs.len() == 0 {
        (false, false)
    } else if fs[0].path@ == path {
        (fs[0].has_package_json, fs[0].has_pyproject)
    } else {
        files_of(fs.drop_first(), path)
    }
}

fn files_of_exec(fs: &Vec<ManifestFiles>, path: &str) -> (r: (bool, bool))
    ensures
        r == files_of(fs@, path@),
{
    let mut i: usize = 0;
    assert(fs@.skip(0) =~= fs@);
    while i < fs.len()
        invariant
            i <= fs@.len(),
            files_of(fs@, path@) == files_of(fs@.skip(i as int), path@),
        decreases fs@.len() - i,
    {
        assert(fs@.skip(i as int)[0] == fs@[i as int]);
        assert(fs@.skip(i as int).drop_first() =~= fs@.skip(i + 1));
        if str_eq(fs[i].path.as_str(), path) {
            return (fs[i].has_package_json, fs[i].has_pyproject);
        }
        i = i + 1;
    }
    (false, false)
}

/// The names of the local dependencies the plan records for workspace `k`.
pub open spec fn local_names(plan: SyncPlan, k: Seq<char>) -> Seq<Seq<char>> {
    if plan.workspace_links.has(k) {
        plan.workspace_links.value_of(k).keys()
    } else {
        Seq::empty()
    }
}

/// The steps for one selected workspace: its install and `uv sync` unless
/// the install is skipped, then its local links; each only where the
/// workspace has the manifest it needs.
pub open spec fn workspace_steps(
    plan: SyncPlan,
    ws: StrMap<WorkspacePackage>,
    opts: SyncOptions,
    fs: Seq<ManifestFiles>,
    k: Seq<char>,
) -> Seq<StepView> {
    let path = ws.value_of(k)@.path;
    let (pj, pp) = files_of(fs, path);
    let install = if !opts.skip_install && pj {
        seq![StepView::Install(path, plan.package_manager@, local_names(plan, k))]
    } else {
        Seq::empty()
    };
    let uv = if !opts.skip_install && pp {
        seq![StepView::UvSync(path)]
    } else {
        Seq::empty()
    };
    let link = if pj {
        seq![StepView::LinkLocal(k, path)]
    } else {
        Seq::empty()
    };
    install + uv + link
}

pub open spec fn selected_steps(
    plan: SyncPlan,
    ws: StrMap<WorkspacePackage>,
    opts: SyncOptions,
    fs: Seq<ManifestFiles>,
    names: Seq<Seq<char>>,
) -> Seq<StepView>
    decreases names.len(),
{
    if names.len() == 0 {
        Seq::empty()
    } else {
        selected_steps(plan, ws, opts, fs, names.drop_last()) + workspace_steps(plan, ws, opts, fs, names.last())
    }
}

pub open spec fn paths_of(ws: StrMap<WorkspacePackage>, names: Seq<Seq<char>>) -> Seq<Seq<char>> {
    names.map_values(|k: Seq<char>| ws.value_of(k)@.path)
}

fn selected_paths(workspaces: &StrMap<WorkspacePackage>, names: &Vec<String>) -> (r: Vec<String>)
    requires
        forall|i: int| 0 <= i < names@.len() ==> workspaces.has((#[trigger] names@[i])@),
    ensures
        texts_of(r@) == paths_of(*workspaces, strings_view(names@)),
{
    let mut r: Vec<String> = Vec::new();
    let mut i: usize = 0;
    while i < names.len()
        invariant
            forall|x: int| 0 <= x < names@.len() ==> workspaces.has((#[trigger] names@[x])@),
            i <= names@.len(),
            r@.len() == i,
            forall|x: int| 0 <= x < i ==> (#[trigger] r@[x])@ == workspaces.value_of(names@[x]@)@.path,
        decreases names@.len() - i,
    {
        assert(workspaces.has(names@[i as int]@));
        let w = workspaces.get_present(names[i].as_str());
        r.push(w.path.clone());
        i = i + 1;
    }
    assert(texts_of(r@) =~= paths_of(*workspaces, strings_view(names@)));
    r
}

/// The steps of a sync of the plan's selected workspaces, in their order
/// (see `workspace_steps`), followed by the deduplication across them and
/// the pruning of the store against every workspace.
pub fn sync(
    plan: &SyncPlan,
    workspaces: &StrMap<WorkspacePackage>,
    options: &SyncOptions,
    files: &Vec<ManifestFiles>,
) -> (steps: Vec<SyncStep>)
    requires
        forall|i: int|
            0 <= i < plan.selected_workspaces@.len() ==> workspaces.has(
                (#[trigger] plan.selected_workspaces@[i])@,
            ),
    ensures
        steps_view(steps@) == selected_steps(
            *plan,
            *workspaces,
            *options,
            files@,
            strings_view(plan.selected_workspaces@),
        ) + seq![
            StepView::Deduplicate(paths_of(*workspaces, strings_view(plan.selected_workspaces@))),
            StepView::PruneStore(paths_of(*workspaces, workspaces.keys())),
        ],
        forall|k: Seq<char>|
            #[trigger] strings_view(plan.selected_workspaces@).contains(k) && !options.skip_install && files_of(
                files@,
                workspaces.value_of(k)@.path,
            ).0 ==> steps_view(steps@).contains(install_step_for(*plan, *workspaces, k)),
        forall|x: StepView|
            #[trigger] steps_view(steps@).contains(x) && x is Install ==> exists|k: Seq<char>|
                strings_view(plan.selected_workspaces@).contains(k) && !options.skip_install && files_of(
                    files@,
                    workspaces.value_of(k)@.path,
                ).0 && x == install_step_for(*plan, *workspaces, k),
{
    let sel = &plan.selected_workspaces;
    let mut steps: Vec<SyncStep> = Vec::new();
    let mut i: usize = 0;
    assert(steps_view(steps@) =~= selected_steps(*plan, *workspaces, *options, files@, strings_view(sel@).take(0)));
    while i < sel.len()
        invariant
            *sel == plan.selected_workspaces,
            forall|x: int| 0 <= x < sel@.len() ==> workspaces.has((#[trigger] sel@[x])@),
            i <= sel@.len(),
            steps_view(steps@) == selected_steps(*plan, *workspaces, *options, files@, strings_view(sel@).take(i as int)),
        decreases sel@.len() - i,
    {
        let name = &sel[i];
        assert(workspaces.has(sel@[i as int]@));
        let w = workspaces.get_present(name.as_str());
        let (pj, pp) = files_of_exec(files, w.path.as_str());
        let ghost prev = steps_view(steps@);
        if !options.skip_install {
            if pj {
                let names = match plan.workspace_links.get(name.as_str()) {
                    Some(m) => m.keys_vec(),
                    None => Vec::new(),
                };
                assert(texts_of(names@) =~= local_names(*plan, name@));
                steps.push(SyncStep::Install {
                    workspace_path: w.path.clone(),
                    package_manager: plan.package_manager.clone(),
                    local_dep_names: names,
                });
            }
            if pp {
                steps.push(SyncStep::UvSync { workspace_path: w.path.clone() });
            }
        }
        if pj {
            steps.push(SyncStep::LinkLocal { workspace: name.clone(), workspace_path: w.path.clone() });
        }
        proof {
            let t = strings_view(sel@).take(i + 1);
            assert(t.drop_last() =~= strings_view(sel@).take(i as int));
            assert(t.last() == name@);
            assert(steps_view(steps@) =~= prev + workspace_steps(*plan, *workspaces, *options, files@, name@));
        }
        i = i + 1;
    }
    proof {
        assert(strings_view(sel@).take(sel@.len() as int) =~= strings_view(sel@));
    }
    let ghost before = steps_view(steps@);
    let dedup_paths = selected_paths(workspaces, sel);
    let all_names = workspaces.keys_vec();
    assert(strings_view(all_names@) =~= workspaces.keys());
    proof {
        use_type_invariant(workspaces);
        assert forall|x: int| 0 <= x < all_names@.len() implies workspaces.has((#[trigger] all_names@[x])@) by {
            workspaces.lemma_key_index(x);
        }
    }
    let all_paths = selected_paths(workspaces, &all_names);
    steps.push(SyncStep::Deduplicate { workspace_paths: dedup_paths });
    steps.push(SyncStep::PruneStore { workspace_paths: all_paths });
    assert(steps_view(steps@) =~= before + seq![
        StepView::Deduplicate(paths_of(*workspaces, strings_view(sel@))),
        StepView::PruneStore(paths_of(*workspaces, workspaces.keys())),
    ]);
    proof {
        lemma_sync_installs_hide_local_links(*plan, *workspaces, *options, files@, steps_view(steps@));
    }
    steps
}

// ── Commands on one workspace ───────────────────────────────────────

pub open spec fn workspace_not_found_message(name: Seq<char>) -> Seq<char> {
    "Workspace '"@ + name + "' was not found"@
}

/// The workspace of that name.
pub fn find_workspace<'a>(workspaces: &'a StrMap<WorkspacePackage>, name: &str) -> (r: Result<
    &'a WorkspacePackage,
    MonodepError,
>)
    ensures
        r is Ok <==> workspaces.has(name@),
        r matches Ok(w) ==> *w == workspaces.value_of(name@),
        r matches Err(e) ==> is_general(e, workspace_not_found_message(name@)),
{
    match workspaces.get(name) {
        Some(w) => Ok(w),
        None => Err(MonodepError::General(concat3("Workspace '", name, "' was not found"))),
    }
}

/// What the file system showed of another workspace's manifests: its
/// `package.json` when it could be read and parsed, its `pyproject.toml`
/// text when it could be read.
pub struct DependencyFiles {
    pub path: String,
    pub package_json: Option<Value>,
    pub pyproject: Option<String>,
}

/// The record of the files of the workspace at `path`, the first one.
pub open spec fn find_files(fs: Seq<DependencyFiles>, path: Seq<char>) -> Option<DependencyFiles>
    decreases fs.len(),
{
    if fs.len() == 0 {
        None
    } else if fs[0].path@ == path {
        Some(fs[0])
    } else {
        find_files(fs.drop_first(), path)
    }
}

/// The workspace at `path` depends on `p`, as far as its files show.
pub open spec fn depends_on(fs: Seq<DependencyFiles>, path: Seq<char>, p: Seq<char>) -> bool {
    match find_files(fs, path) {
        Some(f) => crate::pm::names_dependency(
            match f.package_json {
                Some(m) => Some(m@),
                None => None,
            },
            match f.pyproject {
                Some(c) => Some(c@),
                None => None,
            },
            p,
        ),
        None => false,
    }
}

fn depends_on_exec(files: &Vec<DependencyFiles>, path: &str, package: &str) -> (r: bool)
    ensures
        r == depends_on(files@, path@, package@),
{
    let mut j: usize = 0;
    assert(files@.skip(0) =~= files@);
    while j < files.len()
        invariant
            j <= files@.len(),
            find_files(files@, path@) == find_files(files@.skip(j as int), path@),
        decreases files@.len() - j,
    {
        assert(files@.skip(j as int)[0] == files@[j as int]);
        assert(files@.skip(j as int).drop_first() =~= files@.skip(j + 1));
        if str_eq(files[j].path.as_str(), path) {
            return crate::pm::workspace_has_dependency(&files[j].package_json, &files[j].pyproject, package);
        }
        j = j + 1;
    }
    false
}

/// The workspaces other than `workspace_name` whose manifests name
/// `package` (see `workspace_has_dependency`), in name order; a workspace
/// whose files were not read names nothing.
pub fn other_dependents(
    workspaces: &StrMap<WorkspacePackage>,
    workspace_name: &str,
    package: &str,
    files: &Vec<DependencyFiles>,
) -> (r: Vec<String>)
    ensures
        sorted_keys(texts_of(r@)),
        forall|k: Seq<char>| #[trigger]
            texts_of(r@).contains(k) <==> workspaces.has(k) && k != workspace_name@ && depends_on(
                files@,
                workspaces.value_of(k)@.path,
                package@,
            ),
{
    proof {
        use_type_invariant(workspaces);
    }
    let mut r: Vec<String> = Vec::new();
    let mut i: usize = 0;
    while i < workspaces.len()
        invariant
            workspaces.well_formed(),
            i <= workspaces.keys().len(),
            sorted_keys(texts_of(r@)),
            forall|k: Seq<char>| #[trigger] texts_of(r@).contains(k) ==> exists|y: int|
                0 <= y < i && workspaces.keys()[y] == k && k != workspace_name@,
            forall|k: Seq<char>| #[trigger] texts_of(r@).contains(k) ==> depends_on(
                files@,
                workspaces.value_of(k)@.path,
                package@,
            ),
            forall|y: int|
                0 <= y < i && #[trigger] workspaces.keys()[y] != workspace_name@ && depends_on(
                    files@,
                    workspaces.value_of(workspaces.keys()[y])@.path,
                    package@,
                ) ==> texts_of(r@).contains(workspaces.keys()[y]),
        decreases workspaces.keys().len() - i,
    {
        let name = workspaces.key_at(i);
        let w = workspaces.value_at(i);
        proof {
            workspaces.lemma_key_index(i as int);
        }
        let ghost before = texts_of(r@);
        if !str_eq(name.as_str(), workspace_name) {
            let found = depends_on_exec(files, w.path.as_str(), package);
            if found {
                let ghost prev = texts_of(r@);
                r.push(name.clone());
                proof {
                    let now = texts_of(r@);
                    assert(now =~= prev.push(name@));
                    assert forall|a: int, b: int| 0 <= a < b < now.len() implies str_lt(
                        #[trigger] now[a],
                        #[trigger] now[b],
                    ) by {
                        if b == now.len() - 1 {
                            assert(prev.contains(now[a]));
                            let y = choose|y: int| 0 <= y < i && workspaces.keys()[y] == now[a] && now[a] != workspace_name@;
                            assert(str_lt(workspaces.keys()[y], workspaces.keys()[i as int]));
                        } else {
                            assert(str_lt(prev[a], prev[b]));
                        }
                    }
                    assert forall|k: Seq<char>| #[trigger] now.contains(k) implies exists|y: int|
                        0 <= y < i + 1 && workspaces.keys()[y] == k && k != workspace_name@ by {
                        if k == name@ {
                            assert(workspaces.keys()[i as int] == k);
                        } else {
                            assert(prev.contains(k));
                        }
                    }
                    assert forall|k: Seq<char>| #[trigger] now.contains(k) implies depends_on(
                        files@,
                        workspaces.value_of(k)@.path,
                        package@,
                    ) by {
                        if k != name@ {
                            assert(prev.contains(k));
                        }
                    }
                    assert forall|y: int|
                        0 <= y < i + 1 && #[trigger] workspaces.keys()[y] != workspace_name@ && depends_on(
                            files@,
                            workspaces.value_of(workspaces.keys()[y])@.path,
                            package@,
                        ) implies now.contains(workspaces.keys()[y]) by {
                        if y < i {
                            assert(prev.contains(workspaces.keys()[y]));
                            let z = choose|z: int| 0 <= z < prev.len() && prev[z] == workspaces.keys()[y];
                            assert(now[z] == prev[z]);
                        } else {
                            assert(now[now.len() - 1] == name@);
                        }
                    }
                }
            }
        }
        i = i + 1;
    }
    proof {
        assert forall|k: Seq<char>| #[trigger] texts_of(r@).contains(k) implies workspaces.has(k)
            && k != workspace_name@ by {
            let y = choose|y: int| 0 <= y < workspaces.keys().len() && workspaces.keys()[y] == k && k != workspace_name@;
            workspaces.lemma_key_index(y);
        }
        assert forall|k: Seq<char>|
            workspaces.has(k) && k != workspace_name@ && depends_on(files@, workspaces.value_of(k)@.path, package@)
            implies #[trigger] texts_of(r@).contains(k) by {
            workspaces.lemma_has(k);
            let y = crate::strmap::key_index(workspaces.keys(), k);
            assert(workspaces.keys()[y] != workspace_name@);
        }
    }
    r
}

/// The workspaces an update touched, sorted: the one named and the others
/// that depend on the package.
pub fn updated_workspaces(workspace_name: &str, dependents: &Vec<String>) -> (r: Vec<String>)
    ensures
        sorted_texts(texts_of(r@)),
        texts_of(r@).to_multiset() == texts_of(dependents@).to_multiset().insert(workspace_name@),
{
    let mut all: Vec<String> = Vec::new();
    all.push(workspace_name.to_owned());
    let mut i: usize = 0;
    while i < dependents.len()
        invariant
            i <= dependents@.len(),
            texts_of(all@) == seq![workspace_name@] + texts_of(dependents@).take(i as int),
        decreases dependents@.len() - i,
    {
        let ghost prev = texts_of(all@);
        all.push(dependents[i].clone());
        assert(texts_of(all@) =~= prev.push(dependents@[i as int]@));
        assert(texts_of(dependents@).take(i + 1) =~= texts_of(dependents@).take(i as int).push(dependents@[i as int]@));
        i = i + 1;
    }
    proof {
        assert(texts_of(dependents@).take(dependents@.len() as int) =~= texts_of(dependents@));
        let d = texts_of(dependents@);
        vstd::seq_lib::lemma_multiset_commutative(seq![workspace_name@], d);
        assert((seq![workspace_name@] + d).to_multiset() =~= d.to_multiset().insert(workspace_name@)) by {
            broadcast use vstd::seq_lib::group_to_multiset_ensures;
            assert(seq![workspace_name@].to_multiset() =~= vstd::multiset::Multiset::singleton(workspace_name@)) by {
                assert(seq![workspace_name@] =~= Seq::<Seq<char>>::empty().push(workspace_name@));
            }
        }
    }
    sort_strings(&all)
}


/// The install step of the selected workspace `k`, where there is one:
/// the names it hides from the package manager are the dependencies the
/// plan links locally for `k`.
pub open spec fn install_step_for(plan: SyncPlan, ws: StrMap<WorkspacePackage>, k: Seq<char>) -> StepView {
    StepView::Install(
        ws.value_of(k)@.path,
        plan.package_manager@,
        if plan.workspace_links.has(k) {
            plan.workspace_links.value_of(k).keys()
        } else {
            Seq::empty()
        },
    )
}

proof fn lemma_selected_installs(
    plan: SyncPlan,
    ws: StrMap<WorkspacePackage>,
    opts: SyncOptions,
    fs: Seq<ManifestFiles>,
    names: Seq<Seq<char>>,
)
    ensures
        forall|i: int|
            0 <= i < names.len() && !opts.skip_install && files_of(fs, ws.value_of(#[trigger] names[i])@.path).0
                ==> selected_steps(plan, ws, opts, fs, names).contains(install_step_for(plan, ws, names[i])),
        forall|x: StepView|
            #[trigger] selected_steps(plan, ws, opts, fs, names).contains(x) && x is Install ==> exists|i: int|
                0 <= i < names.len() && !opts.skip_install && files_of(fs, ws.value_of(names[i])@.path).0 && x
                    == install_step_for(plan, ws, names[i]),
    decreases names.len(),
{
    if names.len() > 0 {
        let pre = names.drop_last();
        let k = names.last();
        lemma_selected_installs(plan, ws, opts, fs, pre);
        let a = selected_steps(plan, ws, opts, fs, pre);
        let b = workspace_steps(plan, ws, opts, fs, k);
        let path = ws.value_of(k)@.path;
        let (pj, pp) = files_of(fs, path);
        let install = if !opts.skip_install && pj {
            seq![StepView::Install(path, plan.package_manager@, local_names(plan, k))]
        } else {
            Seq::empty()
        };
        let uv = if !opts.skip_install && pp {
            seq![StepView::UvSync(path)]
        } else {
            Seq::empty()
        };
        let link = if pj {
            seq![StepView::LinkLocal(k, path)]
        } else {
            Seq::empty()
        };
        assert(b == install + uv + link);
        assert forall|i: int|
            0 <= i < names.len() && !opts.skip_install && files_of(fs, ws.value_of(#[trigger] names[i])@.path).0
                implies (a + b).contains(install_step_for(plan, ws, names[i])) by {
            if i < pre.len() {
                assert(pre[i] == names[i]);
                let x = choose|x: int| 0 <= x < a.len() && a[x] == install_step_for(plan, ws, pre[i]);
                assert((a + b)[x] == a[x]);
            } else {
                assert(names[i] == k);
                assert(b[0] == install[0]);
                assert((a + b)[a.len() as int] == b[0]);
            }
        }
        assert forall|x: StepView| #[trigger] (a + b).contains(x) && x is Install implies exists|i: int|
            0 <= i < names.len() && !opts.skip_install && files_of(fs, ws.value_of(names[i])@.path).0 && x
                == install_step_for(plan, ws, names[i]) by {
            let y = choose|y: int| 0 <= y < (a + b).len() && (a + b)[y] == x;
            if y < a.len() {
                assert(a[y] == x);
                assert(a.contains(x));
                let i = choose|i: int|
                    0 <= i < pre.len() && !opts.skip_install && files_of(fs, ws.value_of(pre[i])@.path).0 && x
                        == install_step_for(plan, ws, pre[i]);
                assert(names[i] == pre[i]);
            } else {
                let z = y - a.len();
                assert(b[z] == x);
                if z >= install.len() {
                    if z - install.len() < uv.len() {
                        assert((install + uv)[z] == uv[z - install.len()]);
                    } else {
                        assert(b[z] == link[z - install.len() - uv.len()]);
                    }
                    assert(false);
                } else {
                    assert(b[z] == install[z]);
                    assert(names[names.len() - 1] == k);
                }
            }
        }
    }
}

/// A sync hides from each install exactly the dependencies the plan links
/// locally: for each selected workspace that has a `package.json`, unless
/// the install is skipped, the steps hold its install with, as the names
/// to hide, the names the plan links for that workspace; and every install
/// step is such a one.
pub proof fn lemma_sync_installs_hide_local_links(
    plan: SyncPlan,
    ws: StrMap<WorkspacePackage>,
    opts: SyncOptions,
    fs: Seq<ManifestFiles>,
    steps: Seq<StepView>,
)
    requires
        steps == selected_steps(plan, ws, opts, fs, strings_view(plan.selected_workspaces@)) + seq![
            StepView::Deduplicate(paths_of(ws, strings_view(plan.selected_workspaces@))),
            StepView::PruneStore(paths_of(ws, ws.keys())),
        ],
    ensures
        forall|k: Seq<char>|
            #[trigger] strings_view(plan.selected_workspaces@).contains(k) && !opts.skip_install && files_of(
                fs,
                ws.value_of(k)@.path,
            ).0 ==> steps.contains(install_step_for(plan, ws, k)),
        forall|x: StepView|
            #[trigger] steps.contains(x) && x is Install ==> exists|k: Seq<char>|
                strings_view(plan.selected_workspaces@).contains(k) && !opts.skip_install && files_of(
                    fs,
                    ws.value_of(k)@.path,
                ).0 && x == install_step_for(plan, ws, k),
{
    let names = strings_view(plan.selected_workspaces@);
    let a = selected_steps(plan, ws, opts, fs, names);
    let t = seq![StepView::Deduplicate(paths_of(ws, names)), StepView::PruneStore(paths_of(ws, ws.keys()))];
    lemma_selected_installs(plan, ws, opts, fs, names);
    assert forall|k: Seq<char>|
        #[trigger] names.contains(k) && !opts.skip_install && files_of(fs, ws.value_of(k)@.path).0 implies steps.contains(
            install_step_for(plan, ws, k),
        ) by {
        let i = choose|i: int| 0 <= i < names.len() && names[i] == k;
        assert(a.contains(install_step_for(plan, ws, names[i])));
        let x = choose|x: int| 0 <= x < a.len() && a[x] == install_step_for(plan, ws, k);
        assert(steps[x] == a[x]);
    }
    assert forall|x: StepView| #[trigger] steps.contains(x) && x is Install implies exists|k: Seq<char>|
        names.contains(k) && !opts.skip_install && files_of(fs, ws.value_of(k)@.path).0 && x
            == install_step_for(plan, ws, k) by {
        let y = choose|y: int| 0 <= y < steps.len() && steps[y] == x;
        if y < a.len() {
            assert(a[y] == x);
            assert(a.contains(x));
            let i = choose|i: int|
                0 <= i < names.len() && !opts.skip_install && files_of(fs, ws.value_of(names[i])@.path).0 && x
                    == install_step_for(plan, ws, names[i]);
            assert(names.contains(names[i]));
        } else {
            assert(steps[y] == t[y - a.len()]);
            assert(false);
        }
    }
}

/// What a sync reports is the plan it built, with what deduplication did:
/// given a plan `built` that `build_plan` gave and the steps that `sync`
/// plans for it, the steps end with the deduplication of the selected
/// workspaces' directories and the pruning of the store; and the plan
/// reported with the result `r` of that deduplication
/// (`built.with_dedup(r)`) is what `build_plan` promises in every field
/// but `dedup`, which holds `r`.
pub proof fn lemma_sync_reports_plan(
    built: SyncPlan,
    reported: SyncPlan,
    r: DedupResult,
    steps: Seq<StepView>,
    files: Seq<ManifestFiles>,
    root: Seq<char>,
    ws: StrMap<WorkspacePackage>,
    fv: Seq<Seq<char>>,
    opts: SyncOptions,
    pm: Result<String, MonodepError>,
    targets: Seq<FileTarget>,
)
    requires
        plan_outcome(Ok(built), root, ws, fv, opts, pm, targets),
        steps == selected_steps(built, ws, opts, files, strings_view(built.selected_workspaces@)) + seq![
            StepView::Deduplicate(paths_of(ws, strings_view(built.selected_workspaces@))),
            StepView::PruneStore(paths_of(ws, ws.keys())),
        ],
        reported.options == built.options,
        reported.package_manager == built.package_manager,
        reported.root == built.root,
        reported.selected_workspaces == built.selected_workspaces,
        reported.workspace_links == built.workspace_links,
        reported.workspaces == built.workspaces,
        reported.dedup == Some(r),
    ensures
        plan_fields_match(reported, root, ws, fv, opts, pm->Ok_0@, targets),
        reported.dedup == Some(r),
        steps.len() >= 2,
        steps[steps.len() - 2] == StepView::Deduplicate(paths_of(ws, strings_view(reported.selected_workspaces@))),
        steps[steps.len() - 1] == StepView::PruneStore(paths_of(ws, ws.keys())),
{
    assert(plan_matches(built, root, ws, fv, opts, pm->Ok_0@, targets));
}

} // verus!
