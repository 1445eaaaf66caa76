use vstd::prelude::*;

use crate::manifest::strings_view;
use crate::models::{is_general, text_result, ErrorView, MonodepError};
use crate::text::{concat, concat3, has_substring, contains_str, str_eq};
use crate::value::{find_key, lemma_find_key, Member, Value, ValueModel};

verus! {

broadcast use vstd::seq::group_seq_axioms;

// ── Choosing the package manager ────────────────────────────────────

/// The package managers recognised by their lock file, in the order in
/// which their lock files are looked for.
pub open spec fn lockfile_table() -> Seq<(Seq<char>, Seq<char>)> {
    seq![
        ("bun"@, "bun.lock"@),
        ("pnpm"@, "pnpm-lock.yaml"@),
        ("npm"@, "package-lock.json"@),
        ("yarn"@, "yarn.lock"@),
    ]
}

/// The package managers looked for on `PATH`, in order.
pub open spec fn path_candidates() -> Seq<Seq<char>> {
    seq!["bun"@, "pnpm"@, "npm"@]
}

pub open spec fn no_pm_message() -> Seq<char> {
    "No package manager detected. Set [monorepo].package_manager in mise.toml"@
}

/// The names of the programs looked for on `PATH`, in order.
pub fn path_candidate_names() -> (names: Vec<String>)
    ensures
        strings_view(names@) == path_candidates(),
{
    let mut names: Vec<String> = Vec::new();
    names.push("bun".to_owned());
    names.push("pnpm".to_owned());
    names.push("npm".to_owned());
    assert(strings_view(names@) =~= path_candidates());
    names
}

proof fn lemma_path_pm_candidate(found: Seq<bool>, from: int)
    ensures
        path_pm(found, from) matches Some(x) ==> exists|j: int| 0 <= j < 3 && x == path_candidates()[j],
    decreases 3 - from,
{
    if 0 <= from < 3 && from < found.len() && !found[from] {
        lemma_path_pm_candidate(found, from + 1);
    }
}

/// The lock file names that decide the package manager, in the order in
/// which they are looked for.
pub fn lockfile_names() -> (names: Vec<String>)
    ensures
        names@.len() == lockfile_table().len(),
        forall|i: int| 0 <= i < names@.len() ==> (#[trigger] names@[i])@ == lockfile_table()[i].1,
{
    let mut names: Vec<String> = Vec::new();
    names.push("bun.lock".to_owned());
    names.push("pnpm-lock.yaml".to_owned());
    names.push("package-lock.json".to_owned());
    names.push("yarn.lock".to_owned());
    names
}

/// `[monorepo].package_manager` of the configuration, when it is a string.
pub open spec fn configured_pm(config: ValueModel) -> Option<Seq<char>> {
    match config.field("monorepo"@) {
        Some(mono) => mono.field_text("package_manager"@),
        None => None,
    }
}

/// The package manager of the first lock file, in table order, that is
/// present.
pub open spec fn lockfile_pm(present: Seq<Seq<char>>, from: int) -> Option<Seq<char>>
    decreases 4 - from,
{
    if from < 0 || from >= 4 {
        None
    } else if present.contains(lockfile_table()[from].1) {
        Some(lockfile_table()[from].0)
    } else {
        lockfile_pm(present, from + 1)
    }
}

/// The package manager of the first `PATH` candidate that was found.
pub open spec fn path_pm(found: Seq<bool>, from: int) -> Option<Seq<char>>
    decreases 3 - from,
{
    if from < 0 || from >= 3 || from >= found.len() {
        None
    } else if found[from] {
        Some(path_candidates()[from])
    } else {
        path_pm(found, from + 1)
    }
}

/// What decides the package manager before `PATH` is looked at: the
/// configuration (or the error of reading it), then the lock files.
pub open spec fn pm_before_path(
    config: Option<Result<Value, MonodepError>>,
    present: Seq<Seq<char>>,
) -> Option<Result<Seq<char>, ErrorView>> {
    match config {
        Some(Err(e)) => Some(Err(e@)),
        Some(Ok(v)) if configured_pm(v@) is Some => Some(Ok(configured_pm(v@)->0)),
        _ => match lockfile_pm(present, 0) {
            Some(pm) => Some(Ok(pm)),
            None => None,
        },
    }
}

fn contains_name(names: &Vec<String>, s: &str) -> (r: bool)
    ensures
        r == strings_view(names@).contains(s@),
{
    let mut i: usize = 0;
    while i < names.len()
        invariant
            i <= names@.len(),
            forall|j: int| 0 <= j < i ==> names@[j]@ != s@,
        decreases names@.len() - i,
    {
        if str_eq(names[i].as_str(), s) {
            assert(strings_view(names@)[i as int] == s@);
            return true;
        }
        i = i + 1;
    }
    proof {
        if strings_view(names@).contains(s@) {
            let j = choose|j: int| 0 <= j < strings_view(names@).len() && strings_view(names@)[j] == s@;
            assert(names@[j]@ == s@);
        }
    }
    false
}

fn configured_pm_exec(config: &Value) -> (r: Option<String>)
    ensures
        r is Some <==> configured_pm(config@) is Some,
        r matches Some(s) ==> s@ == configured_pm(config@)->0,
{
    match config.get("monorepo") {
        Some(mono) => match mono.get_str("package_manager") {
            Some(s) => Some(s.clone()),
            None => None,
        },
        None => None,
    }
}

fn lockfile_pm_exec(present: &Vec<String>) -> (r: Option<String>)
    ensures
        r is Some <==> lockfile_pm(strings_view(present@), 0) is Some,
        r matches Some(s) ==> s@ == lockfile_pm(strings_view(present@), 0)->0,
{
    proof {
        reveal_with_fuel(lockfile_pm, 5);
    }
    if contains_name(present, "bun.lock") {
        return Some("bun".to_owned());
    }
    if contains_name(present, "pnpm-lock.yaml") {
        return Some("pnpm".to_owned());
    }
    if contains_name(present, "package-lock.json") {
        return Some("npm".to_owned());
    }
    if contains_name(present, "yarn.lock") {
        return Some("yarn".to_owned());
    }
    None
}

/// The package manager, given whether each `PATH` candidate (`bun`,
/// `pnpm`, `npm`) was found: the configuration decides first, then the
/// lock files, then the first candidate found.
pub fn choose_package_manager(
    config: &Option<Result<Value, MonodepError>>,
    present_lockfiles: &Vec<String>,
    on_path: &Vec<bool>,
) -> (r: Result<String, MonodepError>)
    ensures
        pm_before_path(*config, strings_view(present_lockfiles@)) matches Some(x) ==> text_result(r)
            == x,
        pm_before_path(*config, strings_view(present_lockfiles@)) is None ==> text_result(r) == match path_pm(
            on_path@,
            0,
        ) {
            Some(pm) => Ok(pm),
            None => Err(ErrorView::General(no_pm_message())),
        },
{
    proof {
        reveal_with_fuel(path_pm, 4);
    }
    match config {
        Some(Err(e)) => {
            return Err(e.duplicate());
        },
        Some(Ok(v)) => match configured_pm_exec(v) {
            Some(pm) => {
                return Ok(pm);
            },
            None => {},
        },
        None => {},
    }
    match lockfile_pm_exec(present_lockfiles) {
        Some(pm) => {
            return Ok(pm);
        },
        None => {},
    }
    if on_path.len() > 0 && on_path[0] {
        return Ok("bun".to_owned());
    }
    if on_path.len() > 1 && on_path[1] {
        return Ok("pnpm".to_owned());
    }
    if on_path.len() > 2 && on_path[2] {
        return Ok("npm".to_owned());
    }
    Err(MonodepError::General("No package manager detected. Set [monorepo].package_manager in mise.toml".to_owned()))
}

/// `which::which(program).is_ok()`: whether an executable of that name is
/// found on `PATH`. The answer depends on the environment and the file
/// system, so nothing is stated of it.
#[verifier::external_body]
fn program_on_path(program: &str) -> (found: bool) {
    which::which(program).is_ok()
}

/// The package manager to use: `[monorepo].package_manager` of the
/// configuration, else the first lock file present, else the first of
/// `bun`, `pnpm`, `npm` found on `PATH` (the names of
/// `path_candidate_names`, looked for in that order until one is found,
/// and their answers handed to `choose_package_manager`). Which of the
/// last three is found depends on the environment.
pub fn detect_package_manager(
    config: &Option<Result<Value, MonodepError>>,
    present_lockfiles: &Vec<String>,
) -> (r: Result<String, MonodepError>)
    ensures
        pm_before_path(*config, strings_view(present_lockfiles@)) matches Some(x) ==> text_result(r)
            == x,
        pm_before_path(*config, strings_view(present_lockfiles@)) is None ==> (text_result(r)
            == Err::<Seq<char>, ErrorView>(ErrorView::General(no_pm_message())) || exists|i: int|
            0 <= i < 3 && text_result(r) == Ok::<Seq<char>, ErrorView>(path_candidates()[i])),
{
    let mut on_path: Vec<bool> = Vec::new();
    let decided = match config {
        Some(Err(_)) => true,
        Some(Ok(v)) => configured_pm_exec(v).is_some(),
        None => false,
    } || lockfile_pm_exec(present_lockfiles).is_some();
    if !decided {
        let names = path_candidate_names();
        let mut i: usize = 0;
        while i < names.len()
            invariant
                i <= names@.len(),
            decreases names@.len() - i,
        {
            let found = program_on_path(names[i].as_str());
            on_path.push(found);
            if found {
                break;
            }
            i = i + 1;
        }
    }
    let r = choose_package_manager(config, present_lockfiles, &on_path);
    proof {
        lemma_path_pm_candidate(on_path@, 0);
    }
    r
}


// ── The manifest handed to the package manager ──────────────────────

/// The three dependency groups of a `package.json`.
pub open spec fn is_dep_group(k: Seq<char>) -> bool {
    k == "dependencies"@ || k == "devDependencies"@ || k == "optionalDependencies"@
}

/// The members of an object (keys `ks`, values `vs`) whose key is not in
/// `local`, in their order.
pub open spec fn retained(ks: Seq<Seq<char>>, vs: Seq<ValueModel>, local: Seq<Seq<char>>) -> (
    Seq<Seq<char>>,
    Seq<ValueModel>,
)
    decreases ks.len(),
{
    if ks.len() == 0 {
        (Seq::empty(), Seq::empty())
    } else {
        let r = retained(ks.drop_last(), vs, local);
        let i = ks.len() - 1;
        if local.contains(ks[i]) {
            r
        } else {
            (r.0.push(ks[i]), r.1.push(vs[i]))
        }
    }
}

/// The top-level members of a manifest with the local dependencies taken
/// out of each dependency group that is an object; a group left empty is
/// dropped.
pub open spec fn cleaned_fields(ks: Seq<Seq<char>>, vs: Seq<ValueModel>, local: Seq<Seq<char>>) -> (
    Seq<Seq<char>>,
    Seq<ValueModel>,
)
    decreases ks.len(),
{
    if ks.len() == 0 {
        (Seq::empty(), Seq::empty())
    } else {
        let r = cleaned_fields(ks.drop_last(), vs, local);
        let i = ks.len() - 1;
        let k = ks[i];
        let v = vs[i];
        if is_dep_group(k) && v is Object {
            let kept = retained(v->Object_0, v->Object_1, local);
            if kept.0.len() == 0 {
                r
            } else {
                (r.0.push(k), r.1.push(ValueModel::Object(kept.0, kept.1)))
            }
        } else {
            (r.0.push(k), r.1.push(v))
        }
    }
}

/// The manifest that the package manager sees while local dependencies
/// are linked by this tool: every name in `local` is taken out of the
/// dependency groups, and a group left empty is removed. A manifest that is
/// not an object is left as it is. (The keys of a JSON object are distinct;
/// each member is treated on its own.)
pub open spec fn install_manifest(m: ValueModel, local: Seq<Seq<char>>) -> ValueModel {
    match m {
        ValueModel::Object(ks, vs) => {
            let c = cleaned_fields(ks, vs, local);
            ValueModel::Object(c.0, c.1)
        },
        _ => m,
    }
}

proof fn lemma_retained_hides(ks: Seq<Seq<char>>, vs: Seq<ValueModel>, local: Seq<Seq<char>>)
    ensures
        retained(ks, vs, local).0.len() == retained(ks, vs, local).1.len(),
        forall|j: int|
            0 <= j < retained(ks, vs, local).0.len() ==> !local.contains(
                #[trigger] retained(ks, vs, local).0[j],
            ),
    decreases ks.len(),
{
    if ks.len() > 0 {
        lemma_retained_hides(ks.drop_last(), vs, local);
    }
}

proof fn lemma_cleaned_hides(ks: Seq<Seq<char>>, vs: Seq<ValueModel>, local: Seq<Seq<char>>)
    ensures
        ({
            let c = cleaned_fields(ks, vs, local);
            &&& c.0.len() == c.1.len()
            &&& forall|i: int, j: int|
                0 <= i < c.0.len() && is_dep_group(c.0[i]) && c.1[i] is Object && 0 <= j
                    < c.1[i]->Object_0.len() ==> !local.contains(#[trigger] c.1[i]->Object_0[j])
        }),
    decreases ks.len(),
{
    if ks.len() > 0 {
        lemma_cleaned_hides(ks.drop_last(), vs, local);
        let i = ks.len() - 1;
        let v = vs[i];
        if is_dep_group(ks[i]) && v is Object {
            lemma_retained_hides(v->Object_0, v->Object_1, local);
        }
    }
}

/// The package manager never sees a local dependency: in the manifest
/// prepared for an install, no dependency group that is an object holds
/// any of the local names.
pub proof fn lemma_install_manifest_hides_local(m: ValueModel, local: Seq<Seq<char>>)
    requires
        m is Object,
    ensures
        ({
            let r = install_manifest(m, local);
            &&& r is Object
            &&& r->Object_0.len() == r->Object_1.len()
            &&& forall|i: int, j: int|
                0 <= i < r->Object_0.len() && is_dep_group(r->Object_0[i]) && r->Object_1[i] is Object
                    && 0 <= j < r->Object_1[i]->Object_0.len() ==> !local.contains(
                    #[trigger] r->Object_1[i]->Object_0[j],
                )
        }),
{
    lemma_cleaned_hides(m->Object_0, m->Object_1, local);
}

pub open spec fn member_keys(ms: Seq<Member>) -> Seq<Seq<char>> {
    Seq::new(ms.len(), |i: int| ms[i].key@)
}

pub open spec fn member_values(ms: Seq<Member>) -> Seq<ValueModel> {
    Seq::new(ms.len(), |i: int| ms[i].value@)
}

proof fn lemma_object_view(v: Value)
    requires
        v is Object,
    ensures
        v@ == ValueModel::Object(member_keys(v->Object_0@), member_values(v->Object_0@)),
{
    assert(v@->Object_0 =~= member_keys(v->Object_0@));
    assert(v@->Object_1 =~= member_values(v->Object_0@));
}

fn retain_members(members: &Vec<Member>, local: &Vec<String>) -> (out: Vec<Member>)
    ensures
        (member_keys(out@), member_values(out@)) == retained(
            member_keys(members@),
            member_values(members@),
            strings_view(local@),
        ),
{
    let ghost ks = member_keys(members@);
    let ghost vs = member_values(members@);
    let ghost lv = strings_view(local@);
    let mut out: Vec<Member> = Vec::new();
    let mut i: usize = 0;
    assert(retained(ks.take(0), vs, lv) == (Seq::<Seq<char>>::empty(), Seq::<ValueModel>::empty()));
    assert(member_keys(out@) =~= Seq::<Seq<char>>::empty());
    assert(member_values(out@) =~= Seq::<ValueModel>::empty());
    while i < members.len()
        invariant
            ks == member_keys(members@),
            vs == member_values(members@),
            lv == strings_view(local@),
            i <= members@.len(),
            (member_keys(out@), member_values(out@)) == retained(ks.take(i as int), vs, lv),
        decreases members@.len() - i,
    {
        let m = &members[i];
        proof {
            assert(ks.take(i + 1).drop_last() =~= ks.take(i as int));
            assert(ks.take(i + 1)[i as int] == m.key@);
        }
        let ghost prev = out@;
        if !contains_name(local, m.key.as_str()) {
            out.push(Member { key: m.key.clone(), value: m.value.deep_clone() });
            proof {
                assert(member_keys(out@) =~= member_keys(prev).push(m.key@));
                assert(member_values(out@) =~= member_values(prev).push(m.value@));
            }
        }
        i = i + 1;
    }
    assert(ks.take(members@.len() as int) =~= ks);
    out
}

/// The manifest to hand to the package manager's install: every name in
/// `local_dep_names` taken out of the dependency groups, and a group left
/// empty removed.
pub fn prepare_manifest_for_install(manifest: &Value, local_dep_names: &Vec<String>) -> (r: Value)
    ensures
        r@ == install_manifest(manifest@, strings_view(local_dep_names@)),
{
    match manifest {
        Value::Object(fields) => {
            let ghost ks = member_keys(fields@);
            let ghost vs = member_values(fields@);
            let ghost lv = strings_view(local_dep_names@);
            proof {
                lemma_object_view(*manifest);
            }
            let mut out: Vec<Member> = Vec::new();
            let mut i: usize = 0;
            assert(member_keys(out@) =~= Seq::<Seq<char>>::empty());
            assert(member_values(out@) =~= Seq::<ValueModel>::empty());
            while i < fields.len()
                invariant
                    ks == member_keys(fields@),
                    vs == member_values(fields@),
                    lv == strings_view(local_dep_names@),
                    i <= fields@.len(),
                    (member_keys(out@), member_values(out@)) == cleaned_fields(ks.take(i as int), vs, lv),
                decreases fields@.len() - i,
            {
                let f = &fields[i];
                proof {
                    assert(ks.take(i + 1).drop_last() =~= ks.take(i as int));
                    assert(ks.take(i + 1)[i as int] == f.key@);
                    assert(vs[i as int] == f.value@);
                }
                let ghost prev = out@;
                let is_group = str_eq(f.key.as_str(), "dependencies") || str_eq(f.key.as_str(), "devDependencies")
                    || str_eq(f.key.as_str(), "optionalDependencies");
                match &f.value {
                    Value::Object(members) if is_group => {
                        let kept = retain_members(members, local_dep_names);
                        proof {
                            lemma_object_view(f.value);
                        }
                        if kept.len() > 0 {
                            let nv = Value::Object(kept);
                            proof {
                                lemma_object_view(nv);
                            }
                            out.push(Member { key: f.key.clone(), value: nv });
                            proof {
                                assert(member_keys(out@) =~= member_keys(prev).push(f.key@));
                                assert(member_values(out@) =~= member_values(prev).push(nv@));
                            }
                        }
                    },
                    _ => {
                        out.push(Member { key: f.key.clone(), value: f.value.deep_clone() });
                        proof {
                            assert(member_keys(out@) =~= member_keys(prev).push(f.key@));
                            assert(member_values(out@) =~= member_values(prev).push(f.value@));
                        }
                    },
                }
                i = i + 1;
            }
            assert(ks.take(fields@.len() as int) =~= ks);
            let r = Value::Object(out);
            proof {
                lemma_object_view(r);
            }
            r
        },
        _ => manifest.deep_clone(),
    }
}


// ── Package-manager commands ────────────────────────────────────────

fn argv2(a: &str, b: &str) -> (v: Vec<String>)
    ensures
        strings_view(v@) == seq![a@, b@],
{
    let mut v: Vec<String> = Vec::new();
    v.push(a.to_owned());
    v.push(b.to_owned());
    assert(strings_view(v@) =~= seq![a@, b@]);
    v
}

fn push_arg(v: &mut Vec<String>, a: &str)
    ensures
        strings_view(final(v)@) == strings_view(old(v)@).push(a@),
{
    v.push(a.to_owned());
    assert(strings_view(v@) =~= strings_view(old(v)@).push(a@));
}

/// The install command of a package manager.
pub open spec fn install_argv(pm: Seq<char>) -> Option<Seq<Seq<char>>> {
    if pm == "bun"@ {
        Some(seq!["bun"@, "install"@])
    } else if pm == "pnpm"@ {
        Some(seq!["pnpm"@, "install"@])
    } else if pm == "npm"@ {
        Some(seq!["npm"@, "install"@])
    } else if pm == "yarn"@ {
        Some(seq!["yarn"@, "install"@])
    } else {
        None
    }
}

pub open spec fn unsupported_pm_message(pm: Seq<char>) -> Seq<char> {
    "Unsupported PM: "@ + pm
}

fn unsupported(pm: &str) -> (e: MonodepError)
    ensures
        is_general(e, unsupported_pm_message(pm@)),
{
    MonodepError::General(concat("Unsupported PM: ", pm))
}

pub fn install_command(pm: &str) -> (r: Result<Vec<String>, MonodepError>)
    ensures
        r is Ok <==> install_argv(pm@) is Some,
        r matches Ok(v) ==> strings_view(v@) == install_argv(pm@)->0,
        r matches Err(e) ==> is_general(e, unsupported_pm_message(pm@)),
{
    if str_eq(pm, "bun") {
        Ok(argv2("bun", "install"))
    } else if str_eq(pm, "pnpm") {
        Ok(argv2("pnpm", "install"))
    } else if str_eq(pm, "npm") {
        Ok(argv2("npm", "install"))
    } else if str_eq(pm, "yarn") {
        Ok(argv2("yarn", "install"))
    } else {
        Err(unsupported(pm))
    }
}

/// How to run a workspace's install: the manifest is first rewritten
/// without the local dependencies (see `prepare_manifest_for_install`) when
/// there are any; an unsupported package manager then fails at once, with
/// the manifest still rewritten; otherwise the command runs and the
/// original manifest is written back before its outcome is reported.
pub struct InstallPlan {
    pub rewrite_manifest: bool,
    pub command: Result<Vec<String>, MonodepError>,
    pub restore_manifest: bool,
}

pub fn run_install(pm: &str, local_dep_names: &Vec<String>) -> (plan: InstallPlan)
    ensures
        plan.rewrite_manifest == (local_dep_names@.len() > 0),
        plan.restore_manifest == (local_dep_names@.len() > 0 && install_argv(pm@) is Some),
        plan.command is Ok <==> install_argv(pm@) is Some,
        plan.command matches Ok(v) ==> strings_view(v@) == install_argv(pm@)->0,
        plan.command matches Err(e) ==> is_general(e, unsupported_pm_message(pm@)),
{
    let local = local_dep_names.len() > 0;
    let command = install_command(pm);
    let restore = local && command.is_ok();
    InstallPlan { rewrite_manifest: local, command, restore_manifest: restore }
}

/// The commands to run in a workspace directory, one after the other; the
/// first that fails stops the rest.
pub struct ToolRun {
    pub cwd: String,
    pub commands: Vec<Vec<String>>,
}

pub open spec fn commands_view(cs: Seq<Vec<String>>) -> Seq<Seq<Seq<char>>> {
    cs.map_values(|c: Vec<String>| strings_view(c@))
}

fn single_run(cwd: &str, argv: Vec<String>) -> (r: ToolRun)
    ensures
        r.cwd@ == cwd@,
        commands_view(r.commands@) == seq![strings_view(argv@)],
{
    let mut commands: Vec<Vec<String>> = Vec::new();
    let ghost a = strings_view(argv@);
    commands.push(argv);
    assert(commands_view(commands@) =~= seq![a]);
    ToolRun { cwd: cwd.to_owned(), commands }
}

/// `uv sync` in the workspace.
pub fn run_uv_sync(workspace_path: &str) -> (r: ToolRun)
    ensures
        r.cwd@ == workspace_path@,
        commands_view(r.commands@) == seq![seq!["uv"@, "sync"@]],
{
    single_run(workspace_path, argv2("uv", "sync"))
}

pub open spec fn no_manifest_message(path: Seq<char>) -> Seq<char> {
    "Workspace '"@ + path + "' has no package.json or pyproject.toml"@
}

fn no_manifest(path: &str) -> (e: MonodepError)
    ensures
        is_general(e, no_manifest_message(path@)),
{
    MonodepError::General(concat3("Workspace '", path, "' has no package.json or pyproject.toml"))
}

/// `seq![x]` when `b` holds, else nothing.
pub open spec fn when(b: bool, x: Seq<char>) -> Seq<Seq<char>> {
    if b {
        seq![x]
    } else {
        Seq::empty()
    }
}

/// The package manager's command that adds a package.
pub open spec fn node_add_argv(pm: Seq<char>, package: Seq<char>, dev: bool) -> Option<Seq<Seq<char>>> {
    let base = if pm == "bun"@ {
        Some(seq!["bun"@, "add"@])
    } else if pm == "pnpm"@ {
        Some(seq!["pnpm"@, "add"@])
    } else if pm == "npm"@ {
        Some(seq!["npm"@, "install"@])
    } else if pm == "yarn"@ {
        Some(seq!["yarn"@, "add"@])
    } else {
        None
    };
    match base {
        Some(b) => Some(
            b + when(dev, if pm == "bun"@ {
                "--dev"@
            } else {
                "--save-dev"@
            }) + seq![package],
        ),
        None => None,
    }
}

pub open spec fn python_add_argv(package: Seq<char>, dev: bool) -> Seq<Seq<char>> {
    seq!["uv"@, "add"@] + when(dev, "--dev"@) + seq![package]
}

/// What adding a package to a workspace runs, and in which ecosystem: the
/// package manager when the workspace has a `package.json`, else `uv` when
/// it has a `pyproject.toml`.
pub fn run_add(
    has_package_json: bool,
    has_pyproject: bool,
    workspace_path: &str,
    package: &str,
    pm: &str,
    dev: bool,
) -> (r: Result<(ToolRun, String), MonodepError>)
    ensures
        has_package_json ==> match node_add_argv(pm@, package@, dev) {
            Some(argv) => r matches Ok((run, eco)) && eco@ == "node"@ && run.cwd@ == workspace_path@
                && commands_view(run.commands@) == seq![argv],
            None => r matches Err(e) && is_general(e, unsupported_pm_message(pm@)),
        },
        !has_package_json && has_pyproject ==> (r matches Ok((run, eco)) && eco@ == "python"@
            && run.cwd@ == workspace_path@ && commands_view(run.commands@) == seq![
            python_add_argv(package@, dev),
        ]),
        !has_package_json && !has_pyproject ==> (r matches Err(e) && is_general(
            e,
            no_manifest_message(workspace_path@),
        )),
{
    if has_package_json {
        let mut cmd = if str_eq(pm, "bun") {
            argv2("bun", "add")
        } else if str_eq(pm, "pnpm") {
            argv2("pnpm", "add")
        } else if str_eq(pm, "npm") {
            argv2("npm", "install")
        } else if str_eq(pm, "yarn") {
            argv2("yarn", "add")
        } else {
            return Err(unsupported(pm));
        };
        let ghost base = strings_view(cmd@);
        if dev {
            if str_eq(pm, "bun") {
                push_arg(&mut cmd, "--dev");
            } else {
                push_arg(&mut cmd, "--save-dev");
            }
        }
        let ghost mid = strings_view(cmd@);
        push_arg(&mut cmd, package);
        proof {
            let flag = if pm@ == "bun"@ { "--dev"@ } else { "--save-dev"@ };
            assert(mid =~= base + when(dev, flag));
            assert(strings_view(cmd@) =~= base + when(dev, flag) + seq![package@]);
        }
        return Ok((single_run(workspace_path, cmd), "node".to_owned()));
    }
    if has_pyproject {
        let mut cmd = argv2("uv", "add");
        let ghost base = strings_view(cmd@);
        if dev {
            push_arg(&mut cmd, "--dev");
        }
        let ghost mid = strings_view(cmd@);
        push_arg(&mut cmd, package);
        proof {
            assert(mid =~= base + when(dev, "--dev"@));
            assert(strings_view(cmd@) =~= python_add_argv(package@, dev));
        }
        return Ok((single_run(workspace_path, cmd), "python".to_owned()));
    }
    Err(no_manifest(workspace_path))
}

/// The package manager's command that removes a package.
pub open spec fn node_remove_argv(pm: Seq<char>, package: Seq<char>) -> Option<Seq<Seq<char>>> {
    if pm == "bun"@ {
        Some(seq!["bun"@, "remove"@, package])
    } else if pm == "pnpm"@ {
        Some(seq!["pnpm"@, "remove"@, package])
    } else if pm == "npm"@ {
        Some(seq!["npm"@, "uninstall"@, package])
    } else if pm == "yarn"@ {
        Some(seq!["yarn"@, "remove"@, package])
    } else {
        None
    }
}

/// What removing a package from a workspace runs, and in which ecosystem.
pub fn run_remove(
    has_package_json: bool,
    has_pyproject: bool,
    workspace_path: &str,
    package: &str,
    pm: &str,
) -> (r: Result<(ToolRun, String), MonodepError>)
    ensures
        has_package_json ==> match node_remove_argv(pm@, package@) {
            Some(argv) => r matches Ok((run, eco)) && eco@ == "node"@ && run.cwd@ == workspace_path@
                && commands_view(run.commands@) == seq![argv],
            None => r matches Err(e) && is_general(e, unsupported_pm_message(pm@)),
        },
        !has_package_json && has_pyproject ==> (r matches Ok((run, eco)) && eco@ == "python"@
            && run.cwd@ == workspace_path@ && commands_view(run.commands@) == seq![
            seq!["uv"@, "remove"@, package@],
        ]),
        !has_package_json && !has_pyproject ==> (r matches Err(e) && is_general(
            e,
            no_manifest_message(workspace_path@),
        )),
{
    if has_package_json {
        let mut cmd = if str_eq(pm, "bun") {
            argv2("bun", "remove")
        } else if str_eq(pm, "pnpm") {
            argv2("pnpm", "remove")
        } else if str_eq(pm, "npm") {
            argv2("npm", "uninstall")
        } else if str_eq(pm, "yarn") {
            argv2("yarn", "remove")
        } else {
            return Err(unsupported(pm));
        };
        let ghost base = strings_view(cmd@);
        push_arg(&mut cmd, package);
        assert(strings_view(cmd@) =~= seq![base[0], base[1], package@]);
        return Ok((single_run(workspace_path, cmd), "node".to_owned()));
    }
    if has_pyproject {
        let mut cmd = argv2("uv", "remove");
        push_arg(&mut cmd, package);
        assert(strings_view(cmd@) =~= seq!["uv"@, "remove"@, package@]);
        return Ok((single_run(workspace_path, cmd), "python".to_owned()));
    }
    Err(no_manifest(workspace_path))
}

/// The package manager's command that updates one package, or all.
pub open spec fn node_update_argv(pm: Seq<char>, package: Option<Seq<char>>) -> Option<Seq<Seq<char>>> {
    let base = if pm == "bun"@ {
        Some(seq!["bun"@, "update"@])
    } else if pm == "pnpm"@ {
        Some(seq!["pnpm"@, "update"@])
    } else if pm == "npm"@ {
        Some(seq!["npm"@, "update"@])
    } else if pm == "yarn"@ {
        Some(seq!["yarn"@, "up"@])
    } else {
        None
    };
    match base {
        Some(b) => Some(
            match package {
                Some(p) => b.push(p),
                None => b,
            },
        ),
        None => None,
    }
}

/// `uv`'s commands that update one package, or all: relock, then sync.
pub open spec fn python_update_argvs(package: Option<Seq<char>>) -> Seq<Seq<Seq<char>>> {
    seq![
        match package {
            Some(p) => seq!["uv"@, "lock"@, "--upgrade-package"@, p],
            None => seq!["uv"@, "lock"@, "--upgrade"@],
        },
        seq!["uv"@, "sync"@],
    ]
}

pub open spec fn opt_str_view(p: Option<&str>) -> Option<Seq<char>> {
    match p {
        Some(s) => Some(s@),
        None => None,
    }
}

/// What updating a workspace's dependencies runs, and in which ecosystem.
pub fn run_update(
    has_package_json: bool,
    has_pyproject: bool,
    workspace_path: &str,
    package: Option<&str>,
    pm: &str,
) -> (r: Result<(ToolRun, String), MonodepError>)
    ensures
        has_package_json ==> match node_update_argv(pm@, opt_str_view(package)) {
            Some(argv) => r matches Ok((run, eco)) && eco@ == "node"@ && run.cwd@ == workspace_path@
                && commands_view(run.commands@) == seq![argv],
            None => r matches Err(e) && is_general(e, unsupported_pm_message(pm@)),
        },
        !has_package_json && has_pyproject ==> (r matches Ok((run, eco)) && eco@ == "python"@
            && run.cwd@ == workspace_path@ && commands_view(run.commands@) == python_update_argvs(
            opt_str_view(package),
        )),
        !has_package_json && !has_pyproject ==> (r matches Err(e) && is_general(
            e,
            no_manifest_message(workspace_path@),
        )),
{
    if has_package_json {
        let mut cmd = if str_eq(pm, "bun") {
            argv2("bun", "update")
        } else if str_eq(pm, "pnpm") {
            argv2("pnpm", "update")
        } else if str_eq(pm, "npm") {
            argv2("npm", "update")
        } else if str_eq(pm, "yarn") {
            argv2("yarn", "up")
        } else {
            return Err(unsupported(pm));
        };
        match package {
            Some(p) => push_arg(&mut cmd, p),
            None => {},
        }
        return Ok((single_run(workspace_path, cmd), "node".to_owned()));
    }
    if has_pyproject {
        let mut lock = argv2("uv", "lock");
        match package {
            Some(p) => {
                push_arg(&mut lock, "--upgrade-package");
                push_arg(&mut lock, p);
            },
            None => push_arg(&mut lock, "--upgrade"),
        }
        let sync = argv2("uv", "sync");
        let ghost a = strings_view(lock@);
        let ghost b = strings_view(sync@);
        let mut commands: Vec<Vec<String>> = Vec::new();
        commands.push(lock);
        commands.push(sync);
        proof {
            assert(commands_view(commands@) =~= seq![a, b]);
            assert(a =~= python_update_argvs(opt_str_view(package))[0]);
        }
        return Ok((ToolRun { cwd: workspace_path.to_owned(), commands }, "python".to_owned()));
    }
    Err(no_manifest(workspace_path))
}

// ── Which workspaces depend on a package ────────────────────────────

/// Group `g` of manifest `m` is an object with the key `p`.
pub open spec fn group_has(m: ValueModel, g: Seq<char>, p: Seq<char>) -> bool {
    match m.field(g) {
        Some(o) => o is Object && o.field(p) is Some,
        None => false,
    }
}

/// The manifests name `package`: one of the dependency groups of the
/// `package.json` has it, or the `pyproject.toml` text contains it.
pub open spec fn names_dependency(package_json: Option<ValueModel>, pyproject: Option<Seq<char>>, p: Seq<char>) -> bool {
    (package_json matches Some(m) && (group_has(m, "dependencies"@, p) || group_has(m, "devDependencies"@, p)
        || group_has(m, "optionalDependencies"@, p))) || (pyproject matches Some(c) && has_substring(c, p))
}

/// Whether a workspace depends on `package`: one of the dependency groups
/// of its `package.json` (when it could be read and parsed) has it, or else
/// the text of its `pyproject.toml` (when it could be read) contains it.
pub fn workspace_has_dependency(
    package_json: &Option<Value>,
    pyproject: &Option<String>,
    package: &str,
) -> (r: bool)
    ensures
        r == names_dependency(
            match package_json {
                Some(m) => Some(m@),
                None => None,
            },
            match pyproject {
                Some(c) => Some(c@),
                None => None,
            },
            package@,
        ),
{
    match package_json {
        Some(m) => {
            if group_has_exec(m, "dependencies", package) || group_has_exec(m, "devDependencies", package)
                || group_has_exec(m, "optionalDependencies", package) {
                return true;
            }
        },
        None => {},
    }
    match pyproject {
        Some(c) => contains_str(c.as_str(), package),
        None => false,
    }
}

fn group_has_exec(m: &Value, g: &str, p: &str) -> (r: bool)
    ensures
        r == group_has(m@, g@, p@),
{
    match m.get(g) {
        Some(o) => match o {
            Value::Object(_) => o.get(p).is_some(),
            _ => false,
        },
        None => false,
    }
}

} // verus!
