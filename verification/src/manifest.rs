use vstd::prelude::*;

use crate::models::{is_general, text_result, ErrorView, WorkspaceView, DependencyView, ManifestDependency, MonodepError, SyncOptions, WorkspacePackage};
use crate::strmap::{first_error, last_found, lemma_first_error_prefix, StrMap};
use crate::text::{concat, concat3, has_prefix, join, path_join, starts_with};
use crate::value::{Value, ValueModel};

verus! {

broadcast use vstd::seq::group_seq_axioms;

// ── Dependency entries ──────────────────────────────────────────────

/// The entries of dependency group `group` of manifest `m`, in the order
/// of the group's object; a value that is not a string counts as the empty
/// spec. A missing group, or one that is not an object, gives none.
pub open spec fn group_deps(m: ValueModel, group: Seq<char>, optional: bool) -> Seq<DependencyView> {
    match m.field(group) {
        Some(ValueModel::Object(ks, vs)) => Seq::new(
            ks.len(),
            |i: int| DependencyView { name: ks[i], spec: vs[i].text_or_empty(), group, optional },
        ),
        _ => Seq::empty(),
    }
}

/// The dependencies of a manifest that the options include: the
/// `dependencies` group, then `devDependencies`, then `optionalDependencies`
/// (only the last marked optional).
pub open spec fn manifest_deps(m: ValueModel, opts: SyncOptions) -> Seq<DependencyView> {
    group_deps(m, "dependencies"@, false) + (if opts.include_dev {
        group_deps(m, "devDependencies"@, false)
    } else {
        Seq::empty()
    }) + (if opts.include_optional {
        group_deps(m, "optionalDependencies"@, true)
    } else {
        Seq::empty()
    })
}

pub open spec fn deps_view(v: Seq<ManifestDependency>) -> Seq<DependencyView> {
    v.map_values(|d: ManifestDependency| d@)
}

fn push_group(entries: &mut Vec<ManifestDependency>, manifest: &Value, group: &str, optional: bool)
    ensures
        deps_view(final(entries)@) == deps_view(old(entries)@) + group_deps(
            manifest@,
            group@,
            optional,
        ),
{
    let ghost start = deps_view(entries@);
    match manifest.get(group) {
        Some(Value::Object(members)) => {
            let ghost g = manifest@.field(group@)->0;
            assert(g == Value::Object(*members)@);
            let mut i: usize = 0;
            while i < members.len()
                invariant
                    g == Value::Object(*members)@,
                    manifest@.field(group@) == Some(g),
                    i <= members@.len(),
                    deps_view(entries@) =~= start + group_deps(manifest@, group@, optional).subrange(
                        0,
                        i as int,
                    ),
                decreases members@.len() - i,
            {
                let m = &members[i];
                let spec = match m.value.as_str() {
                    Some(s) => s.clone(),
                    None => String::new(),
                };
                let d = ManifestDependency {
                    name: m.key.clone(),
                    spec,
                    group: group.to_owned(),
                    optional,
                };
                let ghost prev = entries@;
                entries.push(d);
                proof {
                    let gd = group_deps(manifest@, group@, optional);
                    assert(gd.subrange(0, i + 1) =~= gd.subrange(0, i as int).push(gd[i as int]));
                    assert(deps_view(entries@) =~= deps_view(prev).push(d@));
                }
                i = i + 1;
            }
            proof {
                let gd = group_deps(manifest@, group@, optional);
                assert(gd.subrange(0, members@.len() as int) =~= gd);
            }
        },
        _ => {
            assert(group_deps(manifest@, group@, optional) =~= Seq::<DependencyView>::empty());
            assert(deps_view(entries@) =~= start + Seq::<DependencyView>::empty());
        },
    }
}

/// The dependency entries of `manifest` that `options` include.
pub fn dependency_entries(manifest: &Value, options: &SyncOptions) -> (entries: Vec<
    ManifestDependency,
>)
    ensures
        deps_view(entries@) == manifest_deps(manifest@, *options),
{
    let mut entries: Vec<ManifestDependency> = Vec::new();
    assert(deps_view(entries@) =~= Seq::<DependencyView>::empty());
    push_group(&mut entries, manifest, "dependencies", false);
    let ghost a = deps_view(entries@);
    if options.include_dev {
        push_group(&mut entries, manifest, "devDependencies", false);
    } else {
        assert(deps_view(entries@) =~= a + Seq::<DependencyView>::empty());
    }
    let ghost b = deps_view(entries@);
    if options.include_optional {
        push_group(&mut entries, manifest, "optionalDependencies", true);
    } else {
        assert(deps_view(entries@) =~= b + Seq::<DependencyView>::empty());
    }
    proof {
        assert(Seq::<DependencyView>::empty() + group_deps(manifest@, "dependencies"@, false)
            =~= group_deps(manifest@, "dependencies"@, false));
    }
    entries
}


// ── Selecting workspaces ────────────────────────────────────────────

/// Workspace `a` names workspace `b` as a `workspace:` dependency in a
/// group that the options include, and both were discovered.
pub open spec fn links_to(
    ws: StrMap<WorkspacePackage>,
    opts: SyncOptions,
    a: Seq<char>,
    b: Seq<char>,
) -> bool {
    &&& ws.has(a)
    &&& ws.has(b)
    &&& exists|i: int|
        0 <= i < manifest_deps(ws.value_of(a)@.manifest, opts).len() && {
            let d = #[trigger] manifest_deps(ws.value_of(a)@.manifest, opts)[i];
            d.name == b && has_prefix(d.spec, "workspace:"@)
        }
}

/// Step `i` of `path` follows a workspace link.
pub open spec fn walk_step(
    ws: StrMap<WorkspacePackage>,
    opts: SyncOptions,
    path: Seq<Seq<char>>,
    i: int,
) -> bool {
    links_to(ws, opts, path[i], path[i + 1])
}

/// `path` starts at a discovered workspace named by a filter and follows
/// workspace links.
pub open spec fn is_walk(
    ws: StrMap<WorkspacePackage>,
    opts: SyncOptions,
    filters: Seq<Seq<char>>,
    path: Seq<Seq<char>>,
) -> bool {
    &&& path.len() > 0
    &&& filters.contains(path[0])
    &&& ws.has(path[0])
    &&& forall|i: int| 0 <= i < path.len() - 1 ==> #[trigger] walk_step(ws, opts, path, i)
}

/// Workspace `n` is reached from the filters through workspace links.
pub open spec fn selected_by(
    ws: StrMap<WorkspacePackage>,
    opts: SyncOptions,
    filters: Seq<Seq<char>>,
    n: Seq<char>,
) -> bool {
    exists|path: Seq<Seq<char>>| #[trigger] is_walk(ws, opts, filters, path) && path.last() == n
}

/// The last filter that names no discovered workspace.
pub open spec fn last_unknown(ws: StrMap<WorkspacePackage>, fs: Seq<Seq<char>>) -> Option<Seq<char>>
    decreases fs.len(),
{
    if fs.len() == 0 {
        None
    } else if !ws.has(fs.last()) {
        Some(fs.last())
    } else {
        last_unknown(ws, fs.drop_last())
    }
}

pub open spec fn strings_view(v: Seq<String>) -> Seq<Seq<char>> {
    v.map_values(|s: String| s@)
}

/// The error for a filter that names no workspace.
pub open spec fn unknown_filter_message(f: Seq<char>) -> Seq<char> {
    "Unknown workspace filter '"@ + f + "'"@
}

proof fn lemma_last_unknown(ws: StrMap<WorkspacePackage>, fs: Seq<Seq<char>>, i: int)
    requires
        -1 <= i < fs.len(),
        forall|j: int| i < j < fs.len() ==> ws.has(#[trigger] fs[j]),
        i >= 0 ==> !ws.has(fs[i]),
    ensures
        i >= 0 ==> last_unknown(ws, fs) == Some(fs[i]),
        i < 0 ==> last_unknown(ws, fs) is None,
    decreases fs.len(),
{
    if fs.len() > 0 && i < fs.len() - 1 {
        assert(ws.has(fs[fs.len() - 1]));
        let t = fs.drop_last();
        assert forall|j: int| i < j < t.len() implies ws.has(#[trigger] t[j]) by {
            assert(t[j] == fs[j]);
        }
        lemma_last_unknown(ws, t, i);
    }
}

proof fn lemma_walk_extend(
    ws: StrMap<WorkspacePackage>,
    opts: SyncOptions,
    filters: Seq<Seq<char>>,
    a: Seq<char>,
    b: Seq<char>,
)
    requires
        selected_by(ws, opts, filters, a),
        links_to(ws, opts, a, b),
    ensures
        selected_by(ws, opts, filters, b),
{
    let p = choose|p: Seq<Seq<char>>| #[trigger] is_walk(ws, opts, filters, p) && p.last() == a;
    let q = p.push(b);
    assert forall|i: int| 0 <= i < q.len() - 1 implies #[trigger] walk_step(ws, opts, q, i) by {
        if i < p.len() - 1 {
            assert(walk_step(ws, opts, p, i));
        }
    }
    assert(q[0] == p[0]);
    assert(is_walk(ws, opts, filters, q));
}

proof fn lemma_walk_start(
    ws: StrMap<WorkspacePackage>,
    opts: SyncOptions,
    filters: Seq<Seq<char>>,
    f: Seq<char>,
)
    requires
        filters.contains(f),
        ws.has(f),
    ensures
        selected_by(ws, opts, filters, f),
{
    let p = seq![f];
    assert(p[0] == f);
    assert(is_walk(ws, opts, filters, p));
}

/// Every workspace reached from the filters lies in any set that holds the
/// filters and is closed under workspace links.
proof fn lemma_walk_closed(
    ws: StrMap<WorkspacePackage>,
    opts: SyncOptions,
    filters: Seq<Seq<char>>,
    sel: StrMap<WorkspacePackage>,
    n: Seq<char>,
)
    requires
        forall|f: Seq<char>| filters.contains(f) && ws.has(f) ==> #[trigger] sel.has(f),
        forall|a: Seq<char>, b: Seq<char>|
            #[trigger] sel.has(a) && #[trigger] links_to(ws, opts, a, b) ==> sel.has(b),
        selected_by(ws, opts, filters, n),
    ensures
        sel.has(n),
{
    let p = choose|p: Seq<Seq<char>>| #[trigger] is_walk(ws, opts, filters, p) && p.last() == n;
    lemma_walk_closed_upto(ws, opts, filters, sel, p, p.len() - 1);
}

proof fn lemma_walk_closed_upto(
    ws: StrMap<WorkspacePackage>,
    opts: SyncOptions,
    filters: Seq<Seq<char>>,
    sel: StrMap<WorkspacePackage>,
    p: Seq<Seq<char>>,
    k: int,
)
    requires
        forall|f: Seq<char>| filters.contains(f) && ws.has(f) ==> #[trigger] sel.has(f),
        forall|a: Seq<char>, b: Seq<char>|
            #[trigger] sel.has(a) && #[trigger] links_to(ws, opts, a, b) ==> sel.has(b),
        is_walk(ws, opts, filters, p),
        0 <= k < p.len(),
    ensures
        sel.has(p[k]),
    decreases k,
{
    if k > 0 {
        lemma_walk_closed_upto(ws, opts, filters, sel, p, k - 1);
        assert(walk_step(ws, opts, p, k - 1));
    }
}

/// A copy of every workspace.
fn copy_all(workspaces: &StrMap<WorkspacePackage>) -> (r: StrMap<WorkspacePackage>)
    ensures
        forall|k: Seq<char>| #[trigger] r.has(k) <==> workspaces.has(k),
        forall|k: Seq<char>| #[trigger] r.has(k) ==> r.value_of(k)@ == workspaces.value_of(k)@,
{
    proof {
        use_type_invariant(workspaces);
    }
    let mut r: StrMap<WorkspacePackage> = StrMap::new();
    let mut i: usize = 0;
    while i < workspaces.len()
        invariant
            workspaces.well_formed(),
            i <= workspaces.keys().len(),
            forall|k: Seq<char>|
                #[trigger] r.has(k) <==> exists|j: int| 0 <= j < i && workspaces.keys()[j] == k,
            forall|k: Seq<char>| #[trigger] r.has(k) ==> r.value_of(k)@ == workspaces.value_of(k)@,
        decreases workspaces.keys().len() - i,
    {
        let key = workspaces.key_at(i).clone();
        let w = workspaces.value_at(i).duplicate();
        proof {
            workspaces.lemma_key_index(i as int);
        }
        r.insert(key, w);
        proof {
            assert forall|k: Seq<char>| #[trigger] r.has(k) implies exists|j: int|
                0 <= j < i + 1 && workspaces.keys()[j] == k by {
                if k == workspaces.keys()[i as int] {
                    assert(workspaces.keys()[i as int] == k);
                }
            }
        }
        i = i + 1;
    }
    proof {
        assert forall|k: Seq<char>| workspaces.has(k) implies #[trigger] r.has(k) by {
            workspaces.lemma_has(k);
        }
    }
    r
}

/// Pushes onto `pending` the names that `deps` links with `workspace:`
/// and that name discovered workspaces, in the order of `deps`.
fn push_workspace_links(
    pending: &mut Vec<String>,
    deps: &Vec<ManifestDependency>,
    workspaces: &StrMap<WorkspacePackage>,
)
    ensures
        final(pending)@.len() >= old(pending)@.len(),
        forall|j: int| 0 <= j < old(pending)@.len() ==> #[trigger] final(pending)@[j] == old(pending)@[j],
        forall|j: int|
            old(pending)@.len() <= j < final(pending)@.len() ==> workspaces.has(
                (#[trigger] final(pending)@[j])@,
            ) && exists|i: int|
                0 <= i < deps@.len() && (#[trigger] deps@[i])@.name == final(pending)@[j]@
                    && has_prefix(deps@[i]@.spec, "workspace:"@),
        forall|i: int|
            0 <= i < deps@.len() && has_prefix((#[trigger] deps@[i])@.spec, "workspace:"@)
                && workspaces.has(deps@[i]@.name) ==> exists|j: int|
                old(pending)@.len() <= j < final(pending)@.len() && (#[trigger] final(pending)@[j])@
                    == deps@[i]@.name,
{
    let ghost start = pending@;
    let mut i: usize = 0;
    while i < deps.len()
        invariant
            i <= deps@.len(),
            pending@.len() >= start.len(),
            forall|j: int| 0 <= j < start.len() ==> #[trigger] pending@[j] == start[j],
            forall|j: int|
                start.len() <= j < pending@.len() ==> workspaces.has((#[trigger] pending@[j])@)
                    && exists|x: int|
                    0 <= x < deps@.len() && (#[trigger] deps@[x])@.name == pending@[j]@
                        && has_prefix(deps@[x]@.spec, "workspace:"@),
            forall|x: int|
                0 <= x < i && has_prefix((#[trigger] deps@[x])@.spec, "workspace:"@)
                    && workspaces.has(deps@[x]@.name) ==> exists|j: int|
                    start.len() <= j < pending@.len() && (#[trigger] pending@[j])@
                        == deps@[x]@.name,
        decreases deps@.len() - i,
    {
        let d = &deps[i];
        if starts_with(d.spec.as_str(), "workspace:") && workspaces.contains_key(d.name.as_str()) {
            let ghost before = pending@;
            pending.push(d.name.clone());
            proof {
                let last = pending@.len() - 1;
                assert(pending@[last]@ == deps@[i as int]@.name);
                assert forall|x: int|
                    0 <= x < i + 1 && has_prefix((#[trigger] deps@[x])@.spec, "workspace:"@)
                        && workspaces.has(deps@[x]@.name) implies exists|j: int|
                    start.len() <= j < pending@.len() && (#[trigger] pending@[j])@
                        == deps@[x]@.name by {
                    if x < i {
                        let j = choose|j: int|
                            start.len() <= j < before.len() && (#[trigger] before[j])@
                                == deps@[x]@.name;
                        assert(pending@[j] == before[j]);
                    } else {
                        assert(pending@[last]@ == deps@[x]@.name);
                    }
                }
            }
        }
        i = i + 1;
    }
    assert forall|j: int|
        start.len() <= j < pending@.len() implies workspaces.has((#[trigger] pending@[j])@)
            && exists|x: int|
            0 <= x < deps@.len() && (#[trigger] deps@[x])@.name == pending@[j]@
                && has_prefix(deps@[x]@.spec, "workspace:"@) by {}
}

/// Manifest `m` names `b` with a `workspace:` spec in its group `g`.
pub open spec fn group_names_workspace(m: ValueModel, g: Seq<char>, b: Seq<char>) -> bool {
    match m.field(g) {
        Some(ValueModel::Object(ks, vs)) => exists|i: int|
            0 <= i < ks.len() && #[trigger] ks[i] == b && has_prefix(vs[i].text_or_empty(), "workspace:"@),
        _ => false,
    }
}

/// Manifest `m` depends on workspace `b` in a group the options include:
/// `dependencies` always, `devDependencies` only when development
/// dependencies are included, `optionalDependencies` only when optional
/// ones are.
pub open spec fn depends_within(m: ValueModel, opts: SyncOptions, b: Seq<char>) -> bool {
    ||| group_names_workspace(m, "dependencies"@, b)
    ||| (opts.include_dev && group_names_workspace(m, "devDependencies"@, b))
    ||| (opts.include_optional && group_names_workspace(m, "optionalDependencies"@, b))
}

/// Workspace `n` is reached from a filter through discovered workspaces,
/// each depending on the next in a group the options include.
pub open spec fn reached(
    ws: StrMap<WorkspacePackage>,
    opts: SyncOptions,
    filters: Seq<Seq<char>>,
    n: Seq<char>,
) -> bool {
    exists|path: Seq<Seq<char>>|
        #![trigger path.last(), filters.contains(path[0])]
        path.len() > 0 && filters.contains(path[0]) && path.last() == n && (forall|i: int|
            0 <= i < path.len() ==> ws.has(#[trigger] path[i])) && (forall|i: int|
            0 <= i < path.len() - 1 ==> depends_within(ws.value_of(#[trigger] path[i])@.manifest, opts, path[i + 1]))
}

pub open spec fn names_ws_dep(deps: Seq<DependencyView>, b: Seq<char>) -> bool {
    exists|i: int| 0 <= i < deps.len() && (#[trigger] deps[i]).name == b && has_prefix(deps[i].spec, "workspace:"@)
}

proof fn lemma_names_ws_dep_concat(x: Seq<DependencyView>, y: Seq<DependencyView>, b: Seq<char>)
    ensures
        names_ws_dep(x + y, b) <==> names_ws_dep(x, b) || names_ws_dep(y, b),
{
    if names_ws_dep(x + y, b) {
        let i = choose|i: int| 0 <= i < (x + y).len() && (#[trigger] (x + y)[i]).name == b && has_prefix((x + y)[i].spec, "workspace:"@);
        if i < x.len() {
            assert(x[i] == (x + y)[i]);
        } else {
            assert(y[i - x.len()] == (x + y)[i]);
        }
    }
    if names_ws_dep(x, b) {
        let i = choose|i: int| 0 <= i < x.len() && (#[trigger] x[i]).name == b && has_prefix(x[i].spec, "workspace:"@);
        assert((x + y)[i] == x[i]);
    }
    if names_ws_dep(y, b) {
        let i = choose|i: int| 0 <= i < y.len() && (#[trigger] y[i]).name == b && has_prefix(y[i].spec, "workspace:"@);
        assert((x + y)[x.len() + i] == y[i]);
    }
}

proof fn lemma_group_names(m: ValueModel, g: Seq<char>, optional: bool, b: Seq<char>)
    ensures
        names_ws_dep(group_deps(m, g, optional), b) <==> group_names_workspace(m, g, b),
{
    let d = group_deps(m, g, optional);
    match m.field(g) {
        Some(ValueModel::Object(ks, vs)) => {
            if names_ws_dep(d, b) {
                let i = choose|i: int| 0 <= i < d.len() && (#[trigger] d[i]).name == b && has_prefix(d[i].spec, "workspace:"@);
                assert(ks[i] == b);
            }
            if group_names_workspace(m, g, b) {
                let i = choose|i: int|
                    0 <= i < ks.len() && #[trigger] ks[i] == b && has_prefix(vs[i].text_or_empty(), "workspace:"@);
                assert(d[i].name == b);
            }
        },
        _ => {},
    }
}

proof fn lemma_links_to_within(ws: StrMap<WorkspacePackage>, opts: SyncOptions, a: Seq<char>, b: Seq<char>)
    ensures
        links_to(ws, opts, a, b) <==> ws.has(a) && ws.has(b) && depends_within(ws.value_of(a)@.manifest, opts, b),
{
    let m = ws.value_of(a)@.manifest;
    let g1 = group_deps(m, "dependencies"@, false);
    let g2 = if opts.include_dev {
        group_deps(m, "devDependencies"@, false)
    } else {
        Seq::empty()
    };
    let g3 = if opts.include_optional {
        group_deps(m, "optionalDependencies"@, true)
    } else {
        Seq::empty()
    };
    assert(manifest_deps(m, opts) == g1 + g2 + g3);
    lemma_names_ws_dep_concat(g1 + g2, g3, b);
    lemma_names_ws_dep_concat(g1, g2, b);
    lemma_group_names(m, "dependencies"@, false, b);
    lemma_group_names(m, "devDependencies"@, false, b);
    lemma_group_names(m, "optionalDependencies"@, true, b);
    if links_to(ws, opts, a, b) {
        let i = choose|i: int|
            0 <= i < manifest_deps(ws.value_of(a)@.manifest, opts).len() && {
                let d = #[trigger] manifest_deps(ws.value_of(a)@.manifest, opts)[i];
                d.name == b && has_prefix(d.spec, "workspace:"@)
            };
        assert(names_ws_dep(manifest_deps(m, opts), b));
    }
    if ws.has(a) && ws.has(b) && names_ws_dep(manifest_deps(m, opts), b) {
        let i = choose|i: int|
            0 <= i < manifest_deps(m, opts).len() && (#[trigger] manifest_deps(m, opts)[i]).name == b
                && has_prefix(manifest_deps(m, opts)[i].spec, "workspace:"@);
        assert(links_to(ws, opts, a, b));
    }
    if !opts.include_dev {
        assert(!names_ws_dep(g2, b));
    }
    if !opts.include_optional {
        assert(!names_ws_dep(g3, b));
    }
}

/// The filters select exactly the workspaces reached from them through
/// dependencies in the groups the options include: a workspace named only
/// in `devDependencies` is not followed when development dependencies are
/// left out, nor one named only in `optionalDependencies` when optional
/// ones are.
pub proof fn lemma_selection_follows_included_groups(
    ws: StrMap<WorkspacePackage>,
    opts: SyncOptions,
    filters: Seq<Seq<char>>,
    n: Seq<char>,
)
    ensures
        selected_by(ws, opts, filters, n) <==> reached(ws, opts, filters, n),
{
    if selected_by(ws, opts, filters, n) {
        let path = choose|path: Seq<Seq<char>>| #[trigger] is_walk(ws, opts, filters, path) && path.last() == n;
        assert forall|i: int| 0 <= i < path.len() implies ws.has(#[trigger] path[i]) by {
            if i > 0 {
                assert(walk_step(ws, opts, path, i - 1));
            }
        }
        assert forall|i: int| 0 <= i < path.len() - 1 implies depends_within(
            ws.value_of(#[trigger] path[i])@.manifest,
            opts,
            path[i + 1],
        ) by {
            assert(walk_step(ws, opts, path, i));
            lemma_links_to_within(ws, opts, path[i], path[i + 1]);
        }
        assert(path.last() == n && filters.contains(path[0]));
    }
    if reached(ws, opts, filters, n) {
        let path = choose|path: Seq<Seq<char>>|
            #![trigger path.last(), filters.contains(path[0])]
            path.len() > 0 && filters.contains(path[0]) && path.last() == n && (forall|i: int|
                0 <= i < path.len() ==> ws.has(#[trigger] path[i])) && (forall|i: int|
                0 <= i < path.len() - 1 ==> depends_within(ws.value_of(#[trigger] path[i])@.manifest, opts, path[i + 1]));
        assert forall|i: int| 0 <= i < path.len() - 1 implies #[trigger] walk_step(ws, opts, path, i) by {
            assert(ws.has(path[i]));
            assert(ws.has(path[i + 1]));
            assert(depends_within(ws.value_of(path[i])@.manifest, opts, path[i + 1]));
            lemma_links_to_within(ws, opts, path[i], path[i + 1]);
        }
        assert(ws.has(path[0]));
        assert(is_walk(ws, opts, filters, path));
    }
}

/// The workspaces that the filters select: each filter's workspace and,
/// transitively, every workspace it names with a `workspace:` spec. With no
/// filter, every workspace. A filter that names no workspace is an error;
/// the error names the last such filter.
pub fn closure_for_filters(
    workspaces: &StrMap<WorkspacePackage>,
    filters: &Vec<String>,
    options: &SyncOptions,
) -> (r: Result<StrMap<WorkspacePackage>, MonodepError>)
    ensures
        filters@.len() == 0 ==> r is Ok,
        filters@.len() == 0 ==> (r matches Ok(sel) && (forall|k: Seq<char>|
            #[trigger] sel.has(k) <==> workspaces.has(k))),
        filters@.len() > 0 ==> (r is Ok <==> last_unknown(*workspaces, strings_view(filters@)) is None),
        filters@.len() > 0 ==> (r matches Ok(sel) ==> forall|k: Seq<char>|
            #[trigger] sel.has(k) <==> selected_by(*workspaces, *options, strings_view(filters@), k)),
        filters@.len() > 0 ==> (r matches Ok(sel) ==> forall|k: Seq<char>|
            #[trigger] sel.has(k) <==> reached(*workspaces, *options, strings_view(filters@), k)),
        r matches Ok(sel) ==> forall|k: Seq<char>|
            #[trigger] sel.has(k) ==> sel.value_of(k)@ == workspaces.value_of(k)@,
        r matches Err(e) ==> last_unknown(*workspaces, strings_view(filters@)) matches Some(f)
            && is_general(e, unknown_filter_message(f)),
{
    if filters.len() == 0 {
        return Ok(copy_all(workspaces));
    }
    proof {
        use_type_invariant(workspaces);
    }
    let ghost fv = strings_view(filters@);
    let ghost ws = *workspaces;
    let ghost opts = *options;
    let mut pending: Vec<String> = Vec::new();
    let mut c: usize = 0;
    while c < filters.len()
        invariant
            c <= filters@.len(),
            pending@.len() == c,
            forall|j: int| 0 <= j < c ==> (#[trigger] pending@[j])@ == filters@[j]@,
        decreases filters@.len() - c,
    {
        pending.push(filters[c].clone());
        c = c + 1;
    }
    let mut selected: StrMap<WorkspacePackage> = StrMap::new();
    let ghost mut m: int = filters@.len() as int;
    while pending.len() > 0
        invariant
            ws == *workspaces,
            opts == *options,
            fv == strings_view(filters@),
            ws.well_formed(),
            0 <= m <= pending@.len(),
            m <= fv.len(),
            forall|j: int| 0 <= j < m ==> (#[trigger] pending@[j])@ == fv[j],
            forall|i: int| m <= i < fv.len() ==> ws.has(#[trigger] fv[i]),
            forall|j: int|
                m <= j < pending@.len() ==> ws.has((#[trigger] pending@[j])@) && selected_by(
                    ws,
                    opts,
                    fv,
                    pending@[j]@,
                ),
            forall|k: Seq<char>|
                #[trigger] selected.has(k) ==> ws.has(k) && selected_by(ws, opts, fv, k)
                    && selected.value_of(k)@ == ws.value_of(k)@,
            forall|a: Seq<char>, b: Seq<char>|
                #[trigger] selected.has(a) && #[trigger] links_to(ws, opts, a, b) ==> selected.has(b)
                    || exists|j: int| m <= j < pending@.len() && (#[trigger] pending@[j])@ == b,
            forall|i: int|
                m <= i < fv.len() ==> selected.has(#[trigger] fv[i]) || exists|j: int|
                    m <= j < pending@.len() && (#[trigger] pending@[j])@ == fv[i],
            selected.keys().len() <= ws.keys().len(),
        decreases ws.keys().len() - selected.keys().len(), pending@.len(),
    {
        let ghost before = pending@;
        let ghost old_m = m;
        let name = pending.pop().unwrap();
        let ghost from_filters = before.len() == m;
        proof {
            if from_filters {
                m = m - 1;
            }
            assert(name@ == before[before.len() - 1]@);
        }
        if selected.contains_key(name.as_str()) {
            proof {
                assert forall|a: Seq<char>, b: Seq<char>|
                    #[trigger] selected.has(a) && #[trigger] links_to(ws, opts, a, b) implies selected.has(b)
                        || exists|j: int| m <= j < pending@.len() && (#[trigger] pending@[j])@ == b by {
                    if !selected.has(b) {
                        let j = choose|j: int| old_m <= j < before.len() && (#[trigger] before[j])@ == b;
                        if j < before.len() - 1 {
                            assert(pending@[j] == before[j]);
                        }
                    }
                }
                assert forall|i: int| m <= i < fv.len() implies selected.has(#[trigger] fv[i])
                    || exists|j: int| m <= j < pending@.len() && (#[trigger] pending@[j])@ == fv[i] by {
                    if !selected.has(fv[i]) {
                        if i == m && from_filters {
                            assert(before[m]@ == fv[m]);
                        } else {
                            let j = choose|j: int| old_m <= j < before.len() && (#[trigger] before[j])@ == fv[i];
                            if j < before.len() - 1 {
                                assert(pending@[j] == before[j]);
                            }
                        }
                    }
                }
            }
            continue;
        }
        match workspaces.get(name.as_str()) {
            None => {
                proof {
                    if !from_filters {
                        assert(ws.has(before[before.len() - 1]@));
                    }
                    assert(name@ == fv[m]);
                    lemma_last_unknown(ws, fv, m);
                }
                return Err(MonodepError::General(concat3("Unknown workspace filter '", name.as_str(), "'")));
            },
            Some(w) => {
                let ghost old_sel = selected;
                proof {
                    use_type_invariant(&selected);
                    if from_filters {
                        assert(fv[m] == name@);
                        assert(fv.contains(name@));
                        lemma_walk_start(ws, opts, fv, name@);
                    }
                    selected.lemma_key_count(ws, name@);
                }
                let dup = w.duplicate();
                selected.insert(name.clone(), dup);
                let deps = dependency_entries(&w.manifest, options);
                let ghost mid = pending@;
                push_workspace_links(&mut pending, &deps, workspaces);
                proof {
                    let entries = manifest_deps(ws.value_of(name@)@.manifest, opts);
                    assert(deps_view(deps@) == entries);
                    assert forall|j: int| m <= j < pending@.len() implies ws.has((#[trigger] pending@[j])@)
                        && selected_by(ws, opts, fv, pending@[j]@) by {
                        if j < mid.len() {
                            assert(pending@[j] == mid[j]);
                            assert(mid[j] == before[j]);
                        } else {
                            let x = choose|x: int|
                                0 <= x < deps@.len() && (#[trigger] deps@[x])@.name == pending@[j]@
                                    && has_prefix(deps@[x]@.spec, "workspace:"@);
                            assert(deps_view(deps@)[x] == deps@[x]@);
                            assert(links_to(ws, opts, name@, pending@[j]@));
                            lemma_walk_extend(ws, opts, fv, name@, pending@[j]@);
                        }
                    }
                    assert forall|k: Seq<char>| #[trigger] selected.has(k) implies ws.has(k)
                        && selected_by(ws, opts, fv, k) && selected.value_of(k)@ == ws.value_of(k)@ by {
                        if k != name@ {
                            assert(old_sel.has(k));
                        }
                    }
                    assert forall|a: Seq<char>, b: Seq<char>|
                        #[trigger] selected.has(a) && #[trigger] links_to(ws, opts, a, b) implies selected.has(b)
                            || exists|j: int| m <= j < pending@.len() && (#[trigger] pending@[j])@ == b by {
                        if !selected.has(b) {
                            if a == name@ {
                                let x = choose|x: int|
                                    0 <= x < entries.len() && {
                                        let d = #[trigger] entries[x];
                                        d.name == b && has_prefix(d.spec, "workspace:"@)
                                    };
                                assert(deps_view(deps@)[x] == deps@[x]@);
                                assert(has_prefix((deps@[x])@.spec, "workspace:"@));
                            } else {
                                assert(old_sel.has(a));
                                let j = choose|j: int| old_m <= j < before.len() && (#[trigger] before[j])@ == b;
                                if j == before.len() - 1 {
                                    assert(b == name@);
                                } else {
                                    assert(pending@[j] == mid[j]);
                                }
                            }
                        }
                    }
                    assert forall|i: int| m <= i < fv.len() implies selected.has(#[trigger] fv[i])
                        || exists|j: int| m <= j < pending@.len() && (#[trigger] pending@[j])@ == fv[i] by {
                        if !selected.has(fv[i]) {
                            if i == m && from_filters {
                                assert(before[m]@ == fv[m]);
                            } else {
                                assert(!old_sel.has(fv[i]));
                                let j = choose|j: int| old_m <= j < before.len() && (#[trigger] before[j])@ == fv[i];
                                if j < before.len() - 1 {
                                    assert(pending@[j] == mid[j]);
                                }
                            }
                        }
                    }
                }
            },
        }
    }
    proof {
        assert(m == 0);
        lemma_last_unknown(ws, fv, -1);
        assert forall|k: Seq<char>| selected_by(ws, opts, fv, k) implies #[trigger] selected.has(k) by {
            assert forall|f: Seq<char>| fv.contains(f) && ws.has(f) implies #[trigger] selected.has(f) by {
                let i = choose|i: int| 0 <= i < fv.len() && fv[i] == f;
                assert(selected.has(fv[i]) || exists|j: int| 0 <= j < pending@.len() && (#[trigger] pending@[j])@ == fv[i]);
            }
            lemma_walk_closed(ws, opts, fv, selected, k);
        }
        assert forall|k: Seq<char>| #[trigger] selected.has(k) <==> reached(ws, opts, fv, k) by {
            lemma_selection_follows_included_groups(ws, opts, fv, k);
        }
    }
    Ok(selected)
}


// ── Executables of a package ────────────────────────────────────────

/// The last string value stored under key `k` among `ks`/`vs`.
pub open spec fn last_text_member(ks: Seq<Seq<char>>, vs: Seq<ValueModel>, k: Seq<char>) -> Option<
    Seq<char>,
>
    decreases ks.len(),
{
    if ks.len() == 0 || vs.len() < ks.len() {
        None
    } else if ks.last() == k && vs[ks.len() - 1] is Str {
        vs[ks.len() - 1].text()
    } else {
        last_text_member(ks.drop_last(), vs, k)
    }
}

/// The executables a package declares in its `bin` field: a string names
/// one executable called after the package; an object maps names to paths,
/// and entries whose path is not a string are left out.
pub open spec fn bin_target(name: Seq<char>, m: ValueModel, k: Seq<char>) -> Option<Seq<char>> {
    match m.field("bin"@) {
        Some(ValueModel::Str(s)) => if k == name {
            Some(s)
        } else {
            None
        },
        Some(ValueModel::Object(ks, vs)) => last_text_member(ks, vs, k),
        _ => None,
    }
}

pub fn bin_entries(name: &str, manifest: &Value) -> (bins: StrMap<String>)
    ensures
        forall|k: Seq<char>| #[trigger] bins.has(k) <==> bin_target(name@, manifest@, k) is Some,
        forall|k: Seq<char>|
            #[trigger] bins.has(k) ==> bins.value_of(k)@ == bin_target(name@, manifest@, k)->0,
{
    let mut bins: StrMap<String> = StrMap::new();
    match manifest.get("bin") {
        Some(Value::Str(s)) => {
            bins.insert(name.to_owned(), s.clone());
        },
        Some(Value::Object(members)) => {
            let ghost g = manifest@.field("bin"@)->0;
            let ghost ks = g->Object_0;
            let ghost vs = g->Object_1;
            let mut i: usize = 0;
            while i < members.len()
                invariant
                    g == Value::Object(*members)@,
                    manifest@.field("bin"@) == Some(g),
                    ks == g->Object_0,
                    vs == g->Object_1,
                    ks.len() == vs.len() == members@.len(),
                    i <= members@.len(),
                    forall|k: Seq<char>|
                        #[trigger] bins.has(k) <==> last_text_member(ks.subrange(0, i as int), vs, k)
                            is Some,
                    forall|k: Seq<char>|
                        #[trigger] bins.has(k) ==> bins.value_of(k)@ == last_text_member(
                            ks.subrange(0, i as int),
                            vs,
                            k,
                        )->0,
                decreases members@.len() - i,
            {
                let m = &members[i];
                proof {
                    let pre = ks.subrange(0, i as int);
                    let next = ks.subrange(0, i + 1);
                    assert(next.drop_last() =~= pre);
                    assert(next.last() == m.key@);
                    assert(vs[i as int] == m.value@);
                }
                match m.value.as_str() {
                    Some(v) => {
                        bins.insert(m.key.clone(), v.clone());
                    },
                    None => {},
                }
                i = i + 1;
            }
            proof {
                assert(ks.subrange(0, members@.len() as int) =~= ks);
            }
        },
        _ => {},
    }
    bins
}

// ── Finding the monorepo root ───────────────────────────────────────

/// The configuration names at least one config root:
/// `[monorepo].config_roots` is a non-empty array.
pub open spec fn has_config_roots(config: ValueModel) -> bool {
    match config.field("monorepo"@) {
        Some(mono) => match mono.field("config_roots"@) {
            Some(ValueModel::Array(items)) => items.len() > 0,
            _ => false,
        },
        None => false,
    }
}

pub fn config_has_roots(config: &Value) -> (r: bool)
    ensures
        r == has_config_roots(config@),
{
    match config.get("monorepo") {
        Some(mono) => match mono.get("config_roots") {
            Some(Value::Array(items)) => items.len() > 0,
            _ => false,
        },
        None => false,
    }
}

/// A directory on the way from the start directory up to `/`, with its
/// `mise.toml` when there is one: the parsed document, or the error of
/// reading or parsing it.
pub struct RootCandidate {
    pub dir: String,
    pub config: Option<Result<Value, MonodepError>>,
}

/// The outcome of looking at candidates `cs[i..]`.
pub open spec fn root_search(cs: Seq<RootCandidate>, i: int) -> Result<Seq<char>, ErrorView>
    decreases cs.len() - i,
{
    if i < 0 || i >= cs.len() {
        Err(ErrorView::General(root_not_found_message()))
    } else {
        match cs[i].config {
            Some(Err(e)) => Err(e@),
            Some(Ok(v)) => if has_config_roots(v@) {
                Ok(cs[i].dir@)
            } else {
                root_search(cs, i + 1)
            },
            None => root_search(cs, i + 1),
        }
    }
}

pub open spec fn root_not_found_message() -> Seq<char> {
    "Unable to find a mise monorepo root with [monorepo].config_roots"@
}

/// The nearest directory, from the start upwards, whose `mise.toml` names
/// config roots. An error reading a `mise.toml` before that stops the
/// search.
pub fn find_workspace_root(candidates: &Vec<RootCandidate>) -> (r: Result<String, MonodepError>)
    ensures
        text_result(r) == root_search(candidates@, 0),
{
    let mut i: usize = 0;
    while i < candidates.len()
        invariant
            i <= candidates@.len(),
            root_search(candidates@, 0) == root_search(candidates@, i as int),
        decreases candidates@.len() - i,
    {
        let c = &candidates[i];
        match &c.config {
            Some(Err(e)) => {
                return Err(e.duplicate());
            },
            Some(Ok(v)) => {
                if config_has_roots(v) {
                    return Ok(c.dir.clone());
                }
            },
            None => {},
        }
        i = i + 1;
    }
    Err(MonodepError::General("Unable to find a mise monorepo root with [monorepo].config_roots".to_owned()))
}

// ── Discovering workspaces ──────────────────────────────────────────

pub open spec fn no_config_roots_message() -> Seq<char> {
    "No [monorepo].config_roots entries were found in mise.toml"@
}

/// The glob patterns of the config roots, each joined to the root; an
/// entry that is not a string counts as the empty pattern.
pub open spec fn root_patterns(root: Seq<char>, config: ValueModel) -> Option<Seq<Seq<char>>> {
    match config.field("monorepo"@) {
        Some(mono) => match mono.field("config_roots"@) {
            Some(ValueModel::Array(items)) => Some(
                Seq::new(items.len(), |i: int| path_join(root, items[i].text_or_empty())),
            ),
            _ => None,
        },
        None => None,
    }
}

pub fn config_root_patterns(root: &str, config: &Value) -> (r: Result<Vec<String>, MonodepError>)
    ensures
        r is Ok <==> root_patterns(root@, config@) is Some,
        r matches Ok(ps) ==> strings_view(ps@) == root_patterns(root@, config@)->0,
        r matches Err(e) ==> is_general(e, no_config_roots_message()),
{
    let items = match config.get("monorepo") {
        Some(mono) => match mono.get("config_roots") {
            Some(Value::Array(items)) => items,
            _ => {
                return Err(MonodepError::General("No [monorepo].config_roots entries were found in mise.toml".to_owned()));
            },
        },
        None => {
            return Err(MonodepError::General("No [monorepo].config_roots entries were found in mise.toml".to_owned()));
        },
    };
    let ghost arr = config@.field("monorepo"@)->0.field("config_roots"@)->0;
    assert(arr == Value::Array(*items)@);
    let ghost want = root_patterns(root@, config@)->0;
    let mut out: Vec<String> = Vec::new();
    let mut i: usize = 0;
    while i < items.len()
        invariant
            arr == Value::Array(*items)@,
            want.len() == items@.len(),
            forall|j: int| 0 <= j < items@.len() ==> want[j] == path_join(root@, (#[trigger] items@[j])@.text_or_empty()),
            i <= items@.len(),
            strings_view(out@) =~= want.subrange(0, i as int),
        decreases items@.len() - i,
    {
        assert(arr->Array_0[i as int] == items@[i as int]@);
        let p = match items[i].as_str() {
            Some(s) => join(root, s.as_str()),
            None => join(root, ""),
        };
        proof {
            reveal_strlit("");
            assert(want[i as int] == p@);
        }
        let ghost prev = out@;
        out.push(p);
        proof {
            assert(strings_view(out@) =~= strings_view(prev).push(p@));
            assert(want.subrange(0, i + 1) =~= want.subrange(0, i as int).push(want[i as int]));
        }
        i = i + 1;
    }
    Ok(out)
}


/// What the file system showed of one path that a config-root pattern
/// matched: its canonical form (when that could be had), its last
/// component (when it is valid UTF-8), its `package.json` (absent, or read
/// and parsed, or the error of doing so) and whether it has a
/// `pyproject.toml`.
pub struct Candidate {
    pub path: String,
    pub canonical: Option<String>,
    pub file_name: Option<String>,
    pub package_json: Option<Result<Value, MonodepError>>,
    pub has_pyproject: bool,
}

/// What one matched path contributes: nothing, a workspace under its
/// name, or an error.
pub open spec fn candidate_step(c: Candidate) -> Result<Option<(Seq<char>, WorkspaceView)>, ErrorView> {
    let path = match c.canonical {
        Some(p) => p@,
        None => c.path@,
    };
    match c.package_json {
        None => if c.has_pyproject {
            let name = match c.file_name {
                Some(n) => n@,
                None => "unknown"@,
            };
            Ok(Some((name, WorkspaceView { name, path, manifest: ValueModel::Null })))
        } else {
            Ok(None)
        },
        Some(Err(e)) => Err(e@),
        Some(Ok(m)) => match m@.field_text("name"@) {
            Some(n) => Ok(Some((n, WorkspaceView { name: n, path, manifest: m@ }))),
            None => Err(
                ErrorView::General(
                    "Missing package name in "@ + path_join(c.path@, "package.json"@),
                ),
            ),
        },
    }
}

/// The steps of one pattern: its error, or the steps of the paths it
/// matched.
pub open spec fn pattern_steps(g: Result<Vec<Candidate>, String>) -> Seq<
    Result<Option<(Seq<char>, WorkspaceView)>, ErrorView>,
> {
    match g {
        Err(msg) => seq![Err(ErrorView::General("Invalid glob pattern: "@ + msg@))],
        Ok(cs) => cs@.map_values(|c: Candidate| candidate_step(c)),
    }
}

pub open spec fn all_steps(gs: Seq<Result<Vec<Candidate>, String>>) -> Seq<
    Result<Option<(Seq<char>, WorkspaceView)>, ErrorView>,
>
    decreases gs.len(),
{
    if gs.len() == 0 {
        Seq::empty()
    } else {
        all_steps(gs.drop_last()) + pattern_steps(gs.last())
    }
}

pub open spec fn no_workspaces_message() -> Seq<char> {
    "No workspace package.json files were discovered from monorepo.config_roots"@
}

fn apply_candidate(found: &mut StrMap<WorkspacePackage>, c: &Candidate) -> (r: Result<(), MonodepError>)
    ensures
        candidate_step(*c) is Err <==> r is Err,
        r matches Err(e) ==> candidate_step(*c) == Err::<Option<(Seq<char>, WorkspaceView)>, ErrorView>(
            e@,
        ),
        r is Ok ==> match candidate_step(*c) {
            Ok(Some((n, w))) => {
                &&& forall|k: Seq<char>| #[trigger] final(found).has(k) <==> (old(found).has(k) || k == n)
                &&& final(found).value_of(n)@ == w
                &&& forall|k: Seq<char>|
                    old(found).has(k) && k != n ==> #[trigger] final(found).value_of(k)
                        == old(found).value_of(k)
            },
            _ => *final(found) == *old(found),
        },
{
    let path = match &c.canonical {
        Some(p) => p.clone(),
        None => c.path.clone(),
    };
    match &c.package_json {
        None => {
            if c.has_pyproject {
                let name = match &c.file_name {
                    Some(n) => n.clone(),
                    None => "unknown".to_owned(),
                };
                let w = WorkspacePackage { name: name.clone(), path, manifest: Value::Null };
                found.insert(name, w);
            }
            Ok(())
        },
        Some(Err(e)) => Err(e.duplicate()),
        Some(Ok(m)) => match m.get_str("name") {
            Some(n) => {
                let w = WorkspacePackage { name: n.clone(), path, manifest: m.deep_clone() };
                found.insert(n.clone(), w);
                Ok(())
            },
            None => {
                let mp = join(c.path.as_str(), "package.json");
                Err(MonodepError::General(concat("Missing package name in ", mp.as_str())))
            },
        },
    }
}

/// The workspaces that the config-root patterns matched, keyed by name: a
/// directory with a `package.json` under the manifest's `name`, one with
/// only a `pyproject.toml` under its directory name. A later match under a
/// name replaces an earlier one. The first error stops the discovery, and
/// finding nothing is an error too.
pub fn discover_workspaces(matches: &Vec<Result<Vec<Candidate>, String>>) -> (r: Result<
    StrMap<WorkspacePackage>,
    MonodepError,
>)
    ensures
        first_error(all_steps(matches@)) matches Some(e) ==> r matches Err(x) && x@ == e,
        first_error(all_steps(matches@)) is None ==> (r is Err <==> forall|k: Seq<char>|
            last_found(all_steps(matches@), k) is None),
        first_error(all_steps(matches@)) is None ==> (r matches Err(x) ==> is_general(
            x,
            no_workspaces_message(),
        )),
        r matches Ok(found) ==> forall|k: Seq<char>| #[trigger]
            found.has(k) <==> last_found(all_steps(matches@), k) is Some,
        r matches Ok(found) ==> forall|k: Seq<char>| #[trigger]
            found.has(k) ==> found.value_of(k)@ == last_found(all_steps(matches@), k)->0,
{
    let mut found: StrMap<WorkspacePackage> = StrMap::new();
    let mut g: usize = 0;
    while g < matches.len()
        invariant
            g <= matches@.len(),
            first_error(all_steps(matches@.take(g as int))) is None,
            forall|k: Seq<char>| #[trigger]
                found.has(k) <==> last_found(all_steps(matches@.take(g as int)), k) is Some,
            forall|k: Seq<char>| #[trigger]
                found.has(k) ==> found.value_of(k)@ == last_found(all_steps(matches@.take(g as int)), k)->0,
        decreases matches@.len() - g,
    {
        let ghost done = all_steps(matches@.take(g as int));
        proof {
            assert(matches@.take(g + 1).drop_last() =~= matches@.take(g as int));
            assert(matches@.take(g + 1).last() == matches@[g as int]);
        }
        match &matches[g] {
            Err(msg) => {
                proof {
                    let st = all_steps(matches@.take(g + 1));
                    assert(st =~= done + pattern_steps(matches@[g as int]));
                    assert(st.drop_last() =~= done);
                    lemma_all_steps_prefix(matches@, g + 1);
                    lemma_first_error_prefix(all_steps(matches@), st);
                }
                return Err(MonodepError::General(concat("Invalid glob pattern: ", msg.as_str())));
            },
            Ok(cands) => {
                proof {
                    assert(all_steps(matches@.take(g + 1)) =~= done + pattern_steps(matches@[g as int]));
                }
                let mut c: usize = 0;
                while c < cands.len()
                    invariant
                        matches@[g as int] == Ok::<Vec<Candidate>, String>(*cands),
                        g < matches@.len(),
                        done == all_steps(matches@.take(g as int)),
                        all_steps(matches@.take(g + 1)) == done + pattern_steps(matches@[g as int]),
                        c <= cands@.len(),
                        first_error(done + pattern_steps(matches@[g as int]).take(c as int)) is None,
                        forall|k: Seq<char>| #[trigger]
                            found.has(k) <==> last_found(done + pattern_steps(matches@[g as int]).take(c as int), k) is Some,
                        forall|k: Seq<char>| #[trigger]
                            found.has(k) ==> found.value_of(k)@ == last_found(done + pattern_steps(matches@[g as int]).take(c as int), k)->0,
                    decreases cands@.len() - c,
                {
                    let ghost ps = pattern_steps(matches@[g as int]);
                    let ghost cur = done + ps.take(c as int);
                    let ghost nxt = done + ps.take(c + 1);
                    proof {
                        assert(ps[c as int] == candidate_step(cands@[c as int]));
                        assert(nxt =~= cur.push(ps[c as int]));
                        assert(nxt.drop_last() =~= cur);
                    }
                    let res = apply_candidate(&mut found, &cands[c]);
                    match res {
                        Err(e) => {
                            proof {
                                let st = all_steps(matches@.take(g + 1));
                                assert(st.subrange(0, nxt.len() as int) =~= nxt);
                                lemma_first_error_prefix(st, nxt);
                                lemma_all_steps_prefix(matches@, g + 1);
                                lemma_first_error_prefix(all_steps(matches@), st);
                            }
                            return Err(e);
                        },
                        Ok(()) => {},
                    }
                    c = c + 1;
                }
                proof {
                    let ps = pattern_steps(matches@[g as int]);
                    assert(ps.take(cands@.len() as int) =~= ps);
                    assert(all_steps(matches@.take(g + 1)) =~= done + ps);
                }
            },
        }
        g = g + 1;
    }
    proof {
        assert(matches@.take(matches@.len() as int) =~= matches@);
    }
    if found.len() == 0 {
        proof {
            assert forall|k: Seq<char>| last_found(all_steps(matches@), k) is None by {
                if last_found(all_steps(matches@), k) is Some {
                    assert(found.has(k));
                    found.lemma_has(k);
                }
            }
        }
        return Err(MonodepError::General("No workspace package.json files were discovered from monorepo.config_roots".to_owned()));
    }
    proof {
        let k0 = found.keys()[0];
        assert(found.has(k0));
    }
    Ok(found)
}

proof fn lemma_all_steps_prefix(gs: Seq<Result<Vec<Candidate>, String>>, n: int)
    requires
        0 <= n <= gs.len(),
    ensures
        all_steps(gs.take(n)).len() <= all_steps(gs).len(),
        all_steps(gs).subrange(0, all_steps(gs.take(n)).len() as int) == all_steps(gs.take(n)),
    decreases gs.len(),
{
    if n == gs.len() {
        assert(gs.take(n) =~= gs);
        assert(all_steps(gs).subrange(0, all_steps(gs).len() as int) =~= all_steps(gs));
    } else {
        assert(gs.drop_last().take(n) =~= gs.take(n));
        lemma_all_steps_prefix(gs.drop_last(), n);
        let a = all_steps(gs.drop_last());
        let t = all_steps(gs.take(n));
        assert(all_steps(gs).subrange(0, t.len() as int) =~= a.subrange(0, t.len() as int));
    }
}

} // verus!
