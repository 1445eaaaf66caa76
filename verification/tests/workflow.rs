use monodep::dedup::{
    deduplicate_workspaces, BunEntry, DedupAction, DedupPlan, LibEntry, ModulesEntry, NodeModules,
    PackageDir, SiteEntry, SitePackages, TopDir, Venv, WorkspaceListing,
};
use monodep::engine::{
    build_plan, doctor, plan_local_links, sync, why, FileTarget, LinkProbe, ManifestFiles,
    SyncStep, TargetManifest,
};
use monodep::manifest::{discover_workspaces, Candidate};
use monodep::models::{make_options, SyncOptions, SyncPlan, WorkspacePackage};
use monodep::pm::detect_package_manager;
use monodep::strmap::StrMap;
use monodep::value::{Member, Value};

// ── Fixture: the workspaces of a small monorepo ─────────────────────

const ROOT: &str = "/repo";

fn s(x: &str) -> Value {
    Value::Str(x.to_string())
}

fn obj(fields: Vec<(&str, Value)>) -> Value {
    Value::Object(
        fields
            .into_iter()
            .map(|(k, v)| Member { key: k.to_string(), value: v })
            .collect(),
    )
}

fn mise_config() -> Value {
    obj(vec![
        ("experimental_monorepo_root", Value::Bool(true)),
        (
            "monorepo",
            obj(vec![
                ("config_roots", Value::Array(vec![s("packages/*")])),
                ("package_manager", s("bun")),
            ]),
        ),
    ])
}

fn shared_lib_manifest() -> Value {
    obj(vec![
        ("name", s("shared-lib")),
        ("version", s("1.0.0")),
        ("bin", obj(vec![("shared-tool", s("bin/shared-tool.js"))])),
    ])
}

fn local_bin_manifest() -> Value {
    obj(vec![
        ("name", s("local-bin")),
        ("version", s("1.0.0")),
        ("bin", s("bin/local-bin.js")),
    ])
}

fn app_a_manifest() -> Value {
    obj(vec![
        ("name", s("app-a")),
        ("version", s("1.0.0")),
        (
            "dependencies",
            obj(vec![
                ("shared-lib", s("workspace:*")),
                ("left-pad", s("^1.0.0")),
                ("local-bin", s("file:../local-bin")),
            ]),
        ),
        ("devDependencies", obj(vec![("dev-tool", s("~1.2.0"))])),
        ("optionalDependencies", obj(vec![("optional-tool", s("^2.0.0"))])),
    ])
}

fn app_b_manifest() -> Value {
    obj(vec![
        ("name", s("app-b")),
        ("version", s("1.0.0")),
        ("dependencies", obj(vec![("chalk", s("^1.0.0"))])),
    ])
}

fn ws_path(name: &str) -> String {
    format!("{ROOT}/packages/{name}")
}

fn candidate(name: &str, manifest: Value) -> Candidate {
    Candidate {
        path: ws_path(name),
        canonical: Some(ws_path(name)),
        file_name: Some(name.to_string()),
        package_json: Some(Ok(manifest)),
        has_pyproject: false,
    }
}

/// The workspaces `packages/*` matches, in the order the glob lists them.
fn fixture_workspaces() -> StrMap<WorkspacePackage> {
    let matches = vec![Ok(vec![
        candidate("app-a", app_a_manifest()),
        candidate("app-b", app_b_manifest()),
        candidate("local-bin", local_bin_manifest()),
        candidate("shared-lib", shared_lib_manifest()),
    ])];
    match discover_workspaces(&matches) {
        Ok(ws) => ws,
        Err(e) => panic!("discovery failed: {}", e.message()),
    }
}

/// What the file system shows of app-a's `file:../local-bin` target.
fn fixture_targets() -> Vec<FileTarget> {
    vec![FileTarget {
        path: format!("{ROOT}/packages/app-a/../local-bin"),
        canonical: Some(ws_path("local-bin")),
        manifest: Some(Ok(local_bin_manifest())),
    }]
}

fn fixture_plan(filters: &[&str], options: &SyncOptions) -> (SyncPlan, StrMap<WorkspacePackage>) {
    let workspaces = fixture_workspaces();
    let pm = detect_package_manager(&Some(Ok(mise_config())), &vec![]);
    let filters: Vec<String> = filters.iter().map(|f| f.to_string()).collect();
    let plan = build_plan(ROOT, &workspaces, &filters, options, &pm, &fixture_targets());
    match plan {
        Ok(p) => (p, workspaces),
        Err(e) => panic!("planning failed: {}", e.message()),
    }
}

fn fixture_target_manifests() -> Vec<TargetManifest> {
    vec![
        TargetManifest { dir: ws_path("shared-lib"), manifest: Some(shared_lib_manifest()) },
        TargetManifest { dir: ws_path("local-bin"), manifest: Some(local_bin_manifest()) },
    ]
}

fn fixture_existing_files() -> Vec<String> {
    vec![
        format!("{}/bin/shared-tool.js", ws_path("shared-lib")),
        format!("{}/bin/local-bin.js", ws_path("local-bin")),
    ]
}

fn has(v: &[String], x: &str) -> bool {
    v.iter().any(|e| e == x)
}

// ── plan ────────────────────────────────────────────────────────────

#[test]
fn cli_plan_discovers_workspaces() {
    let (plan, _) = fixture_plan(&[], &make_options(false, false, true));
    assert!(has(&plan.selected_workspaces, "app-a"));
    assert!(has(&plan.selected_workspaces, "app-b"));
    assert_eq!(plan.package_manager, "bun");
}

#[test]
fn cli_plan_resolves_workspace_deps() {
    let (plan, _) = fixture_plan(&[], &make_options(false, false, true));
    let links = plan.workspace_links.get("app-a").unwrap();
    assert_eq!(links.get("shared-lib").unwrap().kind, "workspace");
    assert_eq!(links.get("local-bin").unwrap().kind, "file");
    assert!(links.get("left-pad").is_none());
    assert!(links.get("chalk").is_none());
}

// ── sync ────────────────────────────────────────────────────────────

fn app_a_link_plan(plan: &SyncPlan) -> monodep::engine::LinkPlan {
    let links = plan.workspace_links.get("app-a").unwrap();
    plan_local_links(
        &ws_path("app-a"),
        links,
        &fixture_target_manifests(),
        &fixture_existing_files(),
    )
}

#[test]
fn cli_sync_creates_workspace_symlinks() {
    let options = make_options(false, false, true);
    let (plan, workspaces) = fixture_plan(&[], &options);
    let files: Vec<ManifestFiles> = ["app-a", "app-b", "local-bin", "shared-lib"]
        .iter()
        .map(|n| ManifestFiles { path: ws_path(n), has_package_json: true, has_pyproject: false })
        .collect();
    let steps = sync(&plan, &workspaces, &options, &files);
    assert!(steps.iter().any(|st| matches!(st, SyncStep::LinkLocal { workspace, .. } if workspace == "app-a")));

    let link_plan = app_a_link_plan(&plan);
    assert!(link_plan.failure.is_none());
    let links: Vec<String> = link_plan.dependencies.iter().map(|d| d.dependency.link.clone()).collect();
    assert!(has(&links, &format!("{ROOT}/packages/app-a/node_modules/shared-lib")));
    assert!(has(&links, &format!("{ROOT}/packages/app-a/node_modules/local-bin")));
}

#[test]
fn cli_sync_creates_bin_links() {
    let (plan, _) = fixture_plan(&[], &make_options(false, false, true));
    let link_plan = app_a_link_plan(&plan);
    let bins: Vec<String> = link_plan
        .dependencies
        .iter()
        .flat_map(|d| d.bins.iter().map(|b| b.link.clone()))
        .collect();
    assert!(has(&bins, &format!("{ROOT}/packages/app-a/node_modules/.bin/shared-tool")));
    assert!(has(&bins, &format!("{ROOT}/packages/app-a/node_modules/.bin/local-bin")));
}

fn string_items(v: Option<&Value>) -> Vec<String> {
    match v {
        Some(Value::Array(items)) => items
            .iter()
            .filter_map(|i| match i {
                Value::Str(x) => Some(x.clone()),
                _ => None,
            })
            .collect(),
        _ => Vec::new(),
    }
}

#[test]
fn cli_sync_writes_managed_marker() {
    let (plan, _) = fixture_plan(&[], &make_options(false, false, true));
    let link_plan = app_a_link_plan(&plan);
    let marker = link_plan.marker.expect("a marker after linking");
    let deps = string_items(marker.get("dependencies"));
    assert!(has(&deps, "shared-lib"));
    assert!(has(&deps, "local-bin"));
}

#[test]
fn cli_sync_filtered_limits_scope() {
    let (plan, _) = fixture_plan(&["app-a"], &make_options(false, false, true));
    assert!(has(&plan.selected_workspaces, "app-a"));
    assert!(has(&plan.selected_workspaces, "shared-lib"));
    assert!(!has(&plan.selected_workspaces, "app-b"));
}

#[test]
fn cli_sync_production_excludes_dev() {
    let (plan, _) = fixture_plan(&[], &make_options(true, false, true));
    assert_eq!(plan.options.include_dev, false);
}

// ── doctor ──────────────────────────────────────────────────────────

fn probes_after_sync(plan: &SyncPlan) -> Vec<LinkProbe> {
    let mut probes = Vec::new();
    for i in 0..plan.workspace_links.len() {
        let ws = plan.workspace_links.key_at(i);
        let links = plan.workspace_links.value_at(i);
        for j in 0..links.len() {
            let dep = links.key_at(j);
            let target = links.value_at(j).target_path.clone();
            probes.push(LinkProbe {
                link: format!("{}/node_modules/{dep}", ws_path(ws)),
                is_symlink: true,
                resolved: target.clone(),
                target_canonical: target,
            });
        }
    }
    probes
}

#[test]
fn cli_doctor_healthy_after_sync() {
    let (plan, workspaces) = fixture_plan(&[], &SyncOptions::new());
    let probes = probes_after_sync(&plan);
    let (healthy, report) = doctor(&plan, &workspaces, &probes);
    assert!(healthy);
    assert_eq!(report.healthy, true);
}

#[test]
fn cli_doctor_detects_missing_symlinks() {
    let (plan, workspaces) = fixture_plan(&[], &SyncOptions::new());
    let (healthy, report) = doctor(&plan, &workspaces, &vec![]);
    assert!(!healthy);
    assert_eq!(report.healthy, false);
}

// ── why ─────────────────────────────────────────────────────────────

#[test]
fn cli_why_workspace_dep() {
    let options = SyncOptions::new();
    let (plan, workspaces) = fixture_plan(&[], &options);
    let report = match why(&plan, &workspaces, "shared-lib", &options) {
        Ok(r) => r,
        Err(e) => panic!("why failed: {}", e.message()),
    };
    assert_eq!(report.dependency, "shared-lib");
    assert!(report.local_reasons.iter().any(|r| r.owner == "app-a"));
}

#[test]
fn cli_why_registry_dep() {
    let options = SyncOptions::new();
    let (plan, workspaces) = fixture_plan(&[], &options);
    let report = match why(&plan, &workspaces, "left-pad", &options) {
        Ok(r) => r,
        Err(e) => panic!("why failed: {}", e.message()),
    };
    assert!(report.registry_reasons.iter().any(|r| r.owner == "app-a"));
}

#[test]
fn cli_why_unknown_dep_fails() {
    let options = SyncOptions::new();
    let (plan, workspaces) = fixture_plan(&[], &options);
    assert!(why(&plan, &workspaces, "nonexistent", &options).is_err());
}

// ── Deduplication: node ─────────────────────────────────────────────

fn bun_package(node_modules: &str, name: &str, version: &str) -> BunEntry {
    let safe = name.replace('/', "+");
    let entry = format!("{safe}@{version}+fakehash");
    let dir = format!("{node_modules}/.bun/{entry}/node_modules/{name}");
    BunEntry {
        name: entry,
        is_dir: true,
        modules: Some(vec![ModulesEntry {
            dir: PackageDir {
                name: name.to_string(),
                path: dir,
                is_dir: true,
                is_symlink: false,
                manifest: Some(obj(vec![("name", s(name)), ("version", s(version))])),
            },
            scoped: None,
        }]),
    }
}

fn no_venv() -> Venv {
    Venv { lib: None }
}

fn dedup_listing(ws: &str, extra: &[(&str, &str)]) -> WorkspaceListing {
    let nm = format!("{}/node_modules", ws_path(ws));
    let mut entries = vec![bun_package(&nm, "left-pad", "1.3.0"), bun_package(&nm, "zod", "4.3.6")];
    for (name, version) in extra {
        entries.push(bun_package(&nm, name, version));
    }
    WorkspaceListing { node_modules: NodeModules::Bun(Some(entries)), venv: no_venv() }
}

fn link_store_of(plan: &DedupPlan, target: &str) -> Option<String> {
    plan.node.actions.iter().chain(plan.python.actions.iter()).find_map(|a| match a {
        DedupAction::Link { store, target: t } if t == target => Some(store.clone()),
        _ => None,
    })
}

#[test]
fn dedup_creates_store_and_hardlinks() {
    let listings = vec![dedup_listing("app-a", &[]), dedup_listing("app-b", &[])];
    let plan = deduplicate_workspaces(ROOT, &listings);
    assert_eq!(plan.node.deduplicated_packages, 2);

    let a = format!("{ROOT}/packages/app-a/node_modules/.bun/left-pad@1.3.0+fakehash/node_modules/left-pad");
    let b = format!("{ROOT}/packages/app-b/node_modules/.bun/left-pad@1.3.0+fakehash/node_modules/left-pad");
    let store_a = link_store_of(&plan, &a).expect("app-a's copy is linked");
    let store_b = link_store_of(&plan, &b).expect("app-b's copy is linked");
    assert_eq!(store_a, store_b);
    assert_eq!(store_a, format!("{ROOT}/.monodep/store/node/left-pad/1.3.0/left-pad"));
}

fn action_texts(actions: &[DedupAction]) -> Vec<(String, String, String)> {
    actions
        .iter()
        .map(|a| match a {
            DedupAction::Copy { from, to } => ("copy".to_string(), from.clone(), to.clone()),
            DedupAction::Link { store, target } => ("link".to_string(), store.clone(), target.clone()),
        })
        .collect()
}

#[test]
fn dedup_idempotent() {
    let listings = vec![dedup_listing("app-a", &[]), dedup_listing("app-b", &[])];
    let first = deduplicate_workspaces(ROOT, &listings);
    assert!(first.node.actions.iter().any(|a| matches!(a, DedupAction::Link { .. })));

    let second = deduplicate_workspaces(ROOT, &listings);
    assert_eq!(action_texts(&second.node.actions), action_texts(&first.node.actions));
    assert_eq!(action_texts(&second.python.actions), action_texts(&first.python.actions));
    assert_eq!(second.node.deduplicated_packages, first.node.deduplicated_packages);
}

#[test]
fn dedup_skips_single_workspace_packages() {
    let listings = vec![dedup_listing("app-a", &[("unique-pkg", "1.0.0")]), dedup_listing("app-b", &[])];
    let plan = deduplicate_workspaces(ROOT, &listings);
    let unique_store = format!("{ROOT}/.monodep/store/node/unique-pkg");
    assert!(!plan.node.actions.iter().any(|a| match a {
        DedupAction::Copy { to, .. } => to.starts_with(&unique_store),
        DedupAction::Link { store, .. } => store.starts_with(&unique_store),
    }));
}

// ── Deduplication: python ───────────────────────────────────────────

fn venv_with(ws: &str, packages: &[(&str, &str, &str)]) -> Venv {
    let site = format!("{}/.venv/lib/python3.12/site-packages", ws_path(ws));
    let mut entries = Vec::new();
    for (name, version, top) in packages {
        let safe = name.replace('-', "_");
        entries.push(SiteEntry {
            path: format!("{site}/{safe}-{version}.dist-info"),
            is_dir: true,
            metadata: Some(format!("Name: {name}\nVersion: {version}\n\n")),
            top_level: Some(format!("{top}\n")),
            top_dirs: vec![TopDir { is_dir: true, is_symlink: false }],
        });
        entries.push(SiteEntry {
            path: format!("{site}/{top}"),
            is_dir: true,
            metadata: None,
            top_level: None,
            top_dirs: vec![],
        });
    }
    Venv {
        lib: Some(vec![LibEntry {
            name: "python3.12".to_string(),
            site_packages: Some(SitePackages { path: site, entries: Some(entries) }),
        }]),
    }
}

#[test]
fn python_dedup_creates_store_and_hardlinks() {
    let mut listings = vec![dedup_listing("app-a", &[]), dedup_listing("app-b", &[])];
    for (i, ws) in ["app-a", "app-b"].iter().enumerate() {
        listings[i].venv = venv_with(ws, &[("pydantic", "2.13.1", "pydantic")]);
    }
    let plan = deduplicate_workspaces(ROOT, &listings);
    assert_eq!(plan.python.deduplicated_packages, 1);
    assert!(plan.python.actions.iter().any(|a| matches!(a, DedupAction::Link { .. })));

    let a = format!("{ROOT}/packages/app-a/.venv/lib/python3.12/site-packages/pydantic");
    let b = format!("{ROOT}/packages/app-b/.venv/lib/python3.12/site-packages/pydantic");
    let store_a = link_store_of(&plan, &a).expect("app-a's package is linked");
    let store_b = link_store_of(&plan, &b).expect("app-b's package is linked");
    assert_eq!(store_a, store_b);
    assert_eq!(store_a, format!("{ROOT}/.monodep/store/python/pydantic/2.13.1/pydantic"));
}

#[test]
fn python_dedup_skips_unique() {
    let mut listings = vec![dedup_listing("app-a", &[]), dedup_listing("app-b", &[])];
    listings[0].venv = venv_with("app-a", &[("torch", "2.0.0", "torch")]);
    let plan = deduplicate_workspaces(ROOT, &listings);
    assert_eq!(plan.python.deduplicated_packages, 0);
}

// ── More of the plan ────────────────────────────────────────────────

#[test]
fn plan_shows_workspaces_relative_to_the_root() {
    let (plan, _) = fixture_plan(&[], &SyncOptions::new());
    assert_eq!(plan.workspaces.get("app-a").unwrap(), "packages/app-a");
    assert_eq!(plan.workspaces.get("shared-lib").unwrap(), "packages/shared-lib");
    assert_eq!(plan.root, ROOT);
    let link = plan.workspace_links.get("app-a").unwrap().get("local-bin").unwrap();
    assert_eq!(link.target_path, Some(ws_path("local-bin")));
    assert_eq!(link.version, Some("1.0.0".to_string()));
}

#[test]
fn plan_fails_on_a_missing_file_target() {
    let workspaces = fixture_workspaces();
    let pm = detect_package_manager(&Some(Ok(mise_config())), &vec![]);
    let r = build_plan(ROOT, &workspaces, &vec![], &SyncOptions::new(), &pm, &vec![]);
    match r {
        Err(e) => assert_eq!(e.message(), "File dependency 'local-bin' target not found"),
        Ok(_) => panic!("the target was not found"),
    }
}

#[test]
fn doctor_reports_a_wrong_target() {
    let (plan, workspaces) = fixture_plan(&[], &SyncOptions::new());
    let mut probes = probes_after_sync(&plan);
    for p in probes.iter_mut() {
        if p.link.ends_with("/shared-lib") {
            p.resolved = Some("/elsewhere".to_string());
        }
    }
    let (healthy, report) = doctor(&plan, &workspaces, &probes);
    assert!(!healthy);
    assert_eq!(
        report.issues,
        vec![format!("Wrong symlink target: {ROOT}/packages/app-a/node_modules/shared-lib")]
    );
}

#[test]
fn why_names_the_missing_dependency() {
    let options = SyncOptions::new();
    let (plan, workspaces) = fixture_plan(&[], &options);
    match why(&plan, &workspaces, "nonexistent", &options) {
        Err(e) => assert_eq!(
            e.message(),
            "Dependency 'nonexistent' was not found in the selected workspaces"
        ),
        Ok(_) => panic!("nothing depends on it"),
    }
}
