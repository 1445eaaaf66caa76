use monodep::dedup::{
    deduplicate_workspaces, dist_info_top_level, find_site_packages, parse_dist_info_key,
    prune_store, scan_node_packages, scan_python_packages, store_path, DedupAction, LibEntry,
    ModulesEntry, NodeModules, PackageDir, PruneAction, SiteEntry, SitePackages, StoreListing,
    StoreName, StoreVersion, TopDir, Venv, WorkspaceListing,
};
use monodep::engine::{managed_marker, managed_removals, relative_link_target};
use monodep::manifest::{
    closure_for_filters, config_root_patterns, discover_workspaces, find_workspace_root,
    Candidate, RootCandidate,
};
use monodep::models::{make_options, MonodepError, SyncOptions};
use monodep::pm::{
    choose_package_manager, prepare_manifest_for_install, run_add, run_install, run_remove,
    run_update, run_uv_sync, workspace_has_dependency,
};
use monodep::text::sort_strings;
use monodep::value::{Member, Value};

fn s(x: &str) -> Value {
    Value::Str(x.to_string())
}

fn obj(fields: Vec<(&str, Value)>) -> Value {
    Value::Object(
        fields
            .into_iter()
            .map(|(k, v)| Member { key: k.to_string(), value: v })
            .collect(),
    )
}

fn strings(v: &[&str]) -> Vec<String> {
    v.iter().map(|x| x.to_string()).collect()
}

fn general(e: &MonodepError) -> String {
    match e {
        MonodepError::General(m) => m.clone(),
        _ => panic!("expected a general error"),
    }
}

// ── The store ───────────────────────────────────────────────────────

#[test]
fn store_path_splits_at_the_last_at_and_escapes_scopes() {
    assert_eq!(
        store_path("/r", "node", "@scope/pkg@1.2.3"),
        "/r/.monodep/store/node/@scope+pkg/1.2.3"
    );
    assert_eq!(store_path("/r", "python", "plain"), "/r/.monodep/store/python/plain/0.0.0");
}

fn package(dir: &str, name: &str, manifest: Option<Value>) -> PackageDir {
    PackageDir {
        name: name.to_string(),
        path: format!("{dir}/{name}"),
        is_dir: true,
        is_symlink: false,
        manifest,
    }
}

fn pj(name: &str, version: &str) -> Option<Value> {
    Some(obj(vec![("name", s(name)), ("version", s(version))]))
}

#[test]
fn flat_scan_reads_scopes_and_skips_links_hidden_and_unnamed() {
    let nm = "/w/node_modules";
    let mut link = package(nm, "linked", pj("linked", "1.0.0"));
    link.is_symlink = true;
    let scope_dir = format!("{nm}/@types");
    let entries = vec![
        ModulesEntry { dir: package(nm, "left-pad", pj("left-pad", "1.3.0")), scoped: None },
        ModulesEntry { dir: link, scoped: None },
        ModulesEntry { dir: package(nm, ".cache", pj("cache", "1.0.0")), scoped: None },
        ModulesEntry { dir: package(nm, "broken", None), scoped: None },
        ModulesEntry { dir: package(nm, "noversion", Some(obj(vec![("name", s("noversion"))]))), scoped: None },
        ModulesEntry {
            dir: package(nm, "@types", None),
            scoped: Some(vec![package(&scope_dir, "node", pj("@types/node", "20.0.0"))]),
        },
    ];
    let index = scan_node_packages(&NodeModules::Flat(Some(entries)));
    assert_eq!(index.len(), 2);
    assert_eq!(index.get("left-pad@1.3.0").unwrap(), &strings(&["/w/node_modules/left-pad"]));
    assert_eq!(index.get("@types/node@20.0.0").unwrap(), &strings(&["/w/node_modules/@types/node"]));
    assert!(index.get("linked@1.0.0").is_none());
}

#[test]
fn missing_node_modules_scans_to_nothing() {
    assert_eq!(scan_node_packages(&NodeModules::Missing).len(), 0);
    assert_eq!(scan_node_packages(&NodeModules::Bun(None)).len(), 0);
}

#[test]
fn parse_dist_info_key_reads_the_header_only() {
    assert_eq!(
        parse_dist_info_key("Metadata-Version: 2.1\nName: pydantic\nVersion: 2.13.1\n\nName: other\n"),
        Some("pydantic@2.13.1".to_string())
    );
    assert_eq!(parse_dist_info_key("Name:  spaced \nVersion:1.0\n"), Some("spaced@1.0".to_string()));
    assert_eq!(parse_dist_info_key("Name: a\n\nVersion: 1.0\n"), None);
    assert_eq!(parse_dist_info_key(""), None);
}

#[test]
fn top_level_lists_trimmed_non_empty_lines() {
    assert_eq!(dist_info_top_level(" pydantic \n\n_internal\r\n"), strings(&["pydantic", "_internal"]));
    assert_eq!(dist_info_top_level(""), Vec::<String>::new());
}

#[test]
fn site_packages_is_the_first_python_dir_that_has_one() {
    let venv = Venv {
        lib: Some(vec![
            LibEntry { name: "pkgconfig".to_string(), site_packages: Some(SitePackages { path: "/x".to_string(), entries: None }) },
            LibEntry { name: "python3.11".to_string(), site_packages: None },
            LibEntry { name: "python3.12".to_string(), site_packages: Some(SitePackages { path: "/y".to_string(), entries: None }) },
        ]),
    };
    assert_eq!(find_site_packages(&venv).unwrap().path, "/y");
    assert!(find_site_packages(&Venv { lib: None }).is_none());
}

#[test]
fn python_scan_gathers_dist_info_and_real_top_level_dirs() {
    let site = "/v/site-packages".to_string();
    let venv = Venv {
        lib: Some(vec![LibEntry {
            name: "python3.12".to_string(),
            site_packages: Some(SitePackages {
                path: site.clone(),
                entries: Some(vec![
                    SiteEntry {
                        path: format!("{site}/attrs-23.1.0.dist-info"),
                        is_dir: true,
                        metadata: Some("Name: attrs\nVersion: 23.1.0\n".to_string()),
                        top_level: Some("attr\nattrs\n".to_string()),
                        top_dirs: vec![
                            TopDir { is_dir: true, is_symlink: false },
                            TopDir { is_dir: true, is_symlink: true },
                        ],
                    },
                    SiteEntry {
                        path: format!("{site}/broken-1.0.dist-info"),
                        is_dir: true,
                        metadata: None,
                        top_level: None,
                        top_dirs: vec![],
                    },
                ]),
            }),
        }]),
    };
    let index = scan_python_packages(&venv);
    assert_eq!(index.len(), 1);
    assert_eq!(
        index.get("attrs@23.1.0").unwrap(),
        &strings(&["/v/site-packages/attrs-23.1.0.dist-info", "/v/site-packages/attr"])
    );
}

fn flat_workspace(dir: &str, pkgs: &[(&str, &str)]) -> WorkspaceListing {
    let nm = format!("{dir}/node_modules");
    WorkspaceListing {
        node_modules: NodeModules::Flat(Some(
            pkgs.iter()
                .map(|(n, v)| ModulesEntry { dir: package(&nm, n, pj(n, v)), scoped: None })
                .collect(),
        )),
        venv: Venv { lib: None },
    }
}

#[test]
fn dedup_copies_from_the_first_workspace_and_links_all() {
    let ws = vec![
        flat_workspace("/r/a", &[("zod", "4.3.6")]),
        flat_workspace("/r/b", &[("zod", "4.3.6")]),
        flat_workspace("/r/c", &[("zod", "4.3.6"), ("solo", "1.0.0")]),
    ];
    let plan = deduplicate_workspaces("/r", &ws);
    assert_eq!(plan.node.packages_scanned, 2);
    assert_eq!(plan.node.deduplicated_packages, 1);
    assert_eq!(plan.node.duplicate_copies_saved, 2);
    assert_eq!(plan.node.actions.len(), 4);
    let store = "/r/.monodep/store/node/zod/4.3.6/zod".to_string();
    match &plan.node.actions[0] {
        DedupAction::Copy { from, to } => {
            assert_eq!(from, "/r/a/node_modules/zod");
            assert_eq!(to, &store);
        }
        _ => panic!("the first step copies"),
    }
    for (i, w) in ["a", "b", "c"].iter().enumerate() {
        match &plan.node.actions[i + 1] {
            DedupAction::Link { store: st, target } => {
                assert_eq!(st, &store);
                assert_eq!(target, &format!("/r/{w}/node_modules/zod"));
            }
            _ => panic!("links follow the copy"),
        }
    }
    assert_eq!(plan.store_root, "/r/.monodep/store");
    let result = plan.result(7, 0, true);
    assert_eq!(result.node.files_hardlinked, 7);
    assert_eq!(result.node.duplicate_copies_saved, 2);
    assert_eq!(result.store, Some("/r/.monodep/store".to_string()));
    assert_eq!(plan.result(0, 0, false).store, None);
}

fn store_name(name: &str, versions: &[&str]) -> StoreName {
    let path = format!("/r/.monodep/store/node/{name}");
    StoreName {
        name: name.to_string(),
        path: path.clone(),
        is_dir: true,
        versions: Some(
            versions
                .iter()
                .map(|v| StoreVersion { name: v.to_string(), path: format!("{path}/{v}"), is_dir: true })
                .collect(),
        ),
    }
}

#[test]
fn prune_removes_unused_versions_and_keeps_stored_keys() {
    let ws = vec![flat_workspace("/r/a", &[("zod", "4.3.6")])];
    let store = StoreListing {
        exists: true,
        node: Some(vec![store_name("zod", &["3.0.0", "4.3.6"])]),
        python: None,
    };
    let plan = prune_store(&store, &ws);
    assert_eq!(plan.removed, 1);
    assert_eq!(plan.actions.len(), 2);
    assert!(matches!(&plan.actions[0], PruneAction::RemoveVersion(p) if p == "/r/.monodep/store/node/zod/3.0.0"));
    assert!(matches!(&plan.actions[1], PruneAction::RemoveIfEmpty(p) if p == "/r/.monodep/store/node/zod"));
}

#[test]
fn prune_reads_plus_back_as_slash() {
    let nm = "/r/a/node_modules";
    let ws = vec![WorkspaceListing {
        node_modules: NodeModules::Flat(Some(vec![ModulesEntry {
            dir: package(nm, "@s", None),
            scoped: Some(vec![package(&format!("{nm}/@s"), "p", pj("@s/p", "1.0.0"))]),
        }])),
        venv: Venv { lib: None },
    }];
    let store = StoreListing { exists: true, node: Some(vec![store_name("@s+p", &["1.0.0"])]), python: None };
    let plan = prune_store(&store, &ws);
    assert_eq!(plan.removed, 0);
    assert_eq!(plan.actions.len(), 1);
    let missing = StoreListing { exists: false, node: Some(vec![store_name("x", &["1.0.0"])]), python: None };
    assert_eq!(prune_store(&missing, &ws).actions.len(), 0);
}

// ── Links and markers ───────────────────────────────────────────────

#[test]
fn marker_removals_undo_the_recorded_links() {
    let marker = managed_marker(&strings(&["shared-lib", "local-bin"]), &strings(&["tool"]));
    let removals = managed_removals("/w/node_modules", &marker);
    assert_eq!(
        removals.dependency_links,
        strings(&["/w/node_modules/local-bin", "/w/node_modules/shared-lib"])
    );
    assert_eq!(removals.bin_links, strings(&["/w/node_modules/.bin/tool"]));
    assert!(removals.bins_recorded);
}

#[test]
fn link_contents_are_relative_to_the_link_directory() {
    assert_eq!(
        relative_link_target("/r/packages/shared-lib", "/r/packages/app-a/node_modules/shared-lib"),
        "../../shared-lib"
    );
    assert_eq!(
        relative_link_target("/r/packages/tool/bin/t.js", "/r/packages/app-a/node_modules/.bin/t"),
        "../../../tool/bin/t.js"
    );
}

#[test]
fn sort_strings_orders_by_code_point() {
    assert_eq!(sort_strings(&strings(&["b", "B", "a", "b"])), strings(&["B", "a", "b", "b"]));
}

// ── Discovery and selection ─────────────────────────────────────────

fn config(roots: Vec<Value>) -> Value {
    obj(vec![("monorepo", obj(vec![("config_roots", Value::Array(roots))]))])
}

#[test]
fn workspace_root_is_the_nearest_config_with_roots() {
    let cs = vec![
        RootCandidate { dir: "/r/a/b".to_string(), config: None },
        RootCandidate { dir: "/r/a".to_string(), config: Some(Ok(config(vec![]))) },
        RootCandidate { dir: "/r".to_string(), config: Some(Ok(config(vec![s("packages/*")]))) },
    ];
    assert_eq!(find_workspace_root(&cs).ok(), Some("/r".to_string()));
    let none = vec![RootCandidate { dir: "/".to_string(), config: None }];
    assert_eq!(
        general(&find_workspace_root(&none).unwrap_err()),
        "Unable to find a mise monorepo root with [monorepo].config_roots"
    );
}

#[test]
fn config_roots_become_patterns_under_the_root() {
    let ps = config_root_patterns("/r", &config(vec![s("packages/*"), s("apps/*")])).ok().unwrap();
    assert_eq!(ps, strings(&["/r/packages/*", "/r/apps/*"]));
    assert_eq!(
        general(&config_root_patterns("/r", &obj(vec![])).unwrap_err()),
        "No [monorepo].config_roots entries were found in mise.toml"
    );
}

fn cand(name: &str, manifest: Option<Result<Value, MonodepError>>, py: bool) -> Candidate {
    Candidate {
        path: format!("/r/packages/{name}"),
        canonical: None,
        file_name: Some(name.to_string()),
        package_json: manifest,
        has_pyproject: py,
    }
}

#[test]
fn discovery_names_workspaces_and_reports_errors() {
    let ok = vec![Ok(vec![
        cand("web", Some(Ok(obj(vec![("name", s("web-app"))]))), false),
        cand("api", None, true),
        cand("docs", None, false),
    ])];
    let ws = discover_workspaces(&ok).ok().unwrap();
    assert_eq!(ws.keys_vec(), strings(&["api", "web-app"]));
    assert_eq!(ws.get("web-app").unwrap().path, "/r/packages/web");

    let unnamed = vec![Ok(vec![cand("x", Some(Ok(obj(vec![]))), false)])];
    assert_eq!(
        general(&discover_workspaces(&unnamed).err().unwrap()),
        "Missing package name in /r/packages/x/package.json"
    );
    let bad_glob = vec![Err("bad".to_string())];
    assert_eq!(general(&discover_workspaces(&bad_glob).err().unwrap()), "Invalid glob pattern: bad");
    let empty = vec![Ok(vec![])];
    assert_eq!(
        general(&discover_workspaces(&empty).err().unwrap()),
        "No workspace package.json files were discovered from monorepo.config_roots"
    );
}

#[test]
fn unknown_filter_is_reported() {
    let ok = vec![Ok(vec![cand("a", Some(Ok(obj(vec![("name", s("a"))]))), false)])];
    let ws = discover_workspaces(&ok).ok().unwrap();
    let r = closure_for_filters(&ws, &strings(&["a", "zzz"]), &SyncOptions::new());
    assert_eq!(general(&r.err().unwrap()), "Unknown workspace filter 'zzz'");
}

// ── Package managers ────────────────────────────────────────────────

#[test]
fn package_manager_comes_from_config_then_lockfiles_then_path() {
    let cfg = obj(vec![("monorepo", obj(vec![("package_manager", s("pnpm"))]))]);
    assert_eq!(choose_package_manager(&Some(Ok(cfg)), &strings(&["bun.lock"]), &vec![]).ok(), Some("pnpm".to_string()));
    assert_eq!(
        choose_package_manager(&None, &strings(&["yarn.lock", "package-lock.json"]), &vec![]).ok(),
        Some("npm".to_string())
    );
    assert_eq!(choose_package_manager(&None, &vec![], &vec![false, true]).ok(), Some("pnpm".to_string()));
    assert_eq!(
        general(&choose_package_manager(&None, &vec![], &vec![false, false, false]).unwrap_err()),
        "No package manager detected. Set [monorepo].package_manager in mise.toml"
    );
}

#[test]
fn install_manifest_hides_local_dependencies() {
    let m = obj(vec![
        ("name", s("app")),
        ("dependencies", obj(vec![("shared", s("workspace:*")), ("zod", s("^4"))])),
        ("devDependencies", obj(vec![("shared", s("workspace:*"))])),
    ]);
    let cleaned = prepare_manifest_for_install(&m, &strings(&["shared"]));
    let deps = cleaned.get("dependencies").unwrap();
    assert!(deps.get("zod").is_some());
    assert!(deps.get("shared").is_none());
    assert!(cleaned.get("devDependencies").is_none());
    assert_eq!(cleaned.get_str("name").unwrap(), "app");
}

#[test]
fn install_plan_and_commands() {
    let plan = run_install("bun", &strings(&["shared"]));
    assert!(plan.rewrite_manifest && plan.restore_manifest);
    assert_eq!(plan.command.ok().unwrap(), strings(&["bun", "install"]));
    assert_eq!(general(&run_install("cargo", &vec![]).command.unwrap_err()), "Unsupported PM: cargo");
    let unsupported = run_install("cargo", &strings(&["shared"]));
    assert!(unsupported.rewrite_manifest);
    assert!(!unsupported.restore_manifest);
    let uv = run_uv_sync("/w");
    assert_eq!(uv.cwd, "/w");
    assert_eq!(uv.commands, vec![strings(&["uv", "sync"])]);
}

#[test]
fn add_remove_update_commands() {
    let (run, eco) = run_add(true, false, "/w", "zod", "bun", true).ok().unwrap();
    assert_eq!(run.commands, vec![strings(&["bun", "add", "--dev", "zod"])]);
    assert_eq!(eco, "node");
    let (run, _) = run_add(true, false, "/w", "zod", "npm", true).ok().unwrap();
    assert_eq!(run.commands, vec![strings(&["npm", "install", "--save-dev", "zod"])]);
    let (run, eco) = run_add(false, true, "/w", "httpx", "bun", false).ok().unwrap();
    assert_eq!(run.commands, vec![strings(&["uv", "add", "httpx"])]);
    assert_eq!(eco, "python");
    assert_eq!(
        general(&run_add(false, false, "/w", "x", "bun", false).err().unwrap()),
        "Workspace '/w' has no package.json or pyproject.toml"
    );

    let (run, _) = run_remove(true, false, "/w", "zod", "npm").ok().unwrap();
    assert_eq!(run.commands, vec![strings(&["npm", "uninstall", "zod"])]);
    let (run, _) = run_remove(false, true, "/w", "httpx", "bun").ok().unwrap();
    assert_eq!(run.commands, vec![strings(&["uv", "remove", "httpx"])]);

    let (run, _) = run_update(true, false, "/w", None, "yarn").ok().unwrap();
    assert_eq!(run.commands, vec![strings(&["yarn", "up"])]);
    let (run, _) = run_update(false, true, "/w", Some("httpx"), "bun").ok().unwrap();
    assert_eq!(
        run.commands,
        vec![strings(&["uv", "lock", "--upgrade-package", "httpx"]), strings(&["uv", "sync"])]
    );
    assert_eq!(general(&run_update(true, false, "/w", None, "cargo").err().unwrap()), "Unsupported PM: cargo");
}

#[test]
fn dependency_is_found_in_groups_or_pyproject_text() {
    let m = obj(vec![("devDependencies", obj(vec![("zod", s("^4"))]))]);
    assert!(workspace_has_dependency(&Some(m), &None, "zod"));
    assert!(!workspace_has_dependency(&Some(obj(vec![])), &None, "zod"));
    assert!(workspace_has_dependency(&None, &Some("dependencies = [\"httpx>=0.27\"]".to_string()), "httpx"));
}

#[test]
fn options_follow_the_flags() {
    let o = make_options(true, true, false);
    assert!(!o.include_dev && !o.include_optional && !o.skip_install);
    let d = SyncOptions::new();
    assert!(d.include_dev && d.include_optional && !d.skip_install);
}

#[test]
fn error_messages_carry_their_prefix() {
    assert_eq!(MonodepError::General("g".to_string()).message(), "g");
    assert_eq!(MonodepError::Io("denied".to_string()).message(), "denied");
    assert_eq!(MonodepError::Json("eof".to_string()).message(), "JSON error: eof");
    assert_eq!(MonodepError::Toml("bad".to_string()).message(), "TOML error: bad");
    assert_eq!(MonodepError::Walk("loop".to_string()).message(), "Walk error: loop");
}

#[test]
fn pruning_twice_removes_nothing() {
    let ws = vec![flat_workspace("/r/a", &[("zod", "4.3.6")])];
    let before = StoreListing {
        exists: true,
        node: Some(vec![store_name("zod", &["3.0.0", "4.3.6"]), store_name("old", &["1.0.0"])]),
        python: None,
    };
    assert_eq!(prune_store(&before, &ws).removed, 2);
    let after = StoreListing { exists: true, node: Some(vec![store_name("zod", &["4.3.6"])]), python: None };
    let second = prune_store(&after, &ws);
    assert_eq!(second.removed, 0);
    assert_eq!(second.actions.len(), 1);
    assert!(matches!(&second.actions[0], PruneAction::RemoveIfEmpty(p) if p == "/r/.monodep/store/node/zod"));
}

#[test]
fn store_entries_take_the_directory_name() {
    assert_eq!(
        monodep::dedup::store_entry("/r/.monodep/store/node/zod/4.3.6", Some("zod".to_string())),
        "/r/.monodep/store/node/zod/4.3.6/zod"
    );
    assert_eq!(monodep::dedup::store_entry("/s", None), "/s/");
}

#[test]
fn path_candidates_are_looked_for_in_order() {
    assert_eq!(monodep::pm::path_candidate_names(), strings(&["bun", "pnpm", "npm"]));
}
