use vstd::prelude::*;

use crate::models::{DedupResult, DedupStats};
use crate::strmap::StrMap;
use crate::text::lemma_str_lt_irreflexive;
use crate::text::{
    chars_of, concat, concat3, ends_with, file_name_of, has_suffix, path_file_name, has_prefix, join, last_index_of, lines, path_join, replace_char,
    lemma_last_index_of, replace_char_exec, rsplit_once, split_lines, starts_with, strip_prefix, texts_of, trim, trimmed,
};
use crate::value::{Value, ValueModel};

verus! {

broadcast use vstd::seq::group_seq_axioms;

// ── The store ───────────────────────────────────────────────────────

/// The directory of a package version in the store under `root`: the key
/// `name@version` is cut at its last `@` (a key without one has version
/// `0.0.0`), and `/` in the name becomes `+`.
pub open spec fn store_dir(root: Seq<char>, ecosystem: Seq<char>, key: Seq<char>) -> Seq<char> {
    let (name, version) = match last_index_of(key, '@') {
        Some(i) => (key.subrange(0, i), key.subrange(i + 1, key.len() as int)),
        None => (key, "0.0.0"@),
    };
    path_join(
        path_join(path_join(path_join(root, ".monodep/store"@), ecosystem), replace_char(name, '/', '+')),
        version,
    )
}

pub fn store_path(root: &str, ecosystem: &str, key: &str) -> (r: String)
    ensures
        r@ == store_dir(root@, ecosystem@, key@),
{
    let (name, version) = match rsplit_once(key, '@') {
        Some(parts) => parts,
        None => (key.to_owned(), "0.0.0".to_owned()),
    };
    let safe_name = replace_char_exec(name.as_str(), '/', '+');
    let store = join(root, ".monodep/store");
    let eco = join(store.as_str(), ecosystem);
    let named = join(eco.as_str(), safe_name.as_str());
    join(named.as_str(), version.as_str())
}

// ── Python package metadata ─────────────────────────────────────────

/// The number of lines before the first empty one.
pub open spec fn header_len(ls: Seq<Seq<char>>) -> nat
    decreases ls.len(),
{
    if ls.len() == 0 {
        0
    } else if ls[0].len() == 0 {
        0
    } else {
        1 + header_len(ls.drop_first())
    }
}

/// The first of the first `limit` lines that starts with `p`.
pub open spec fn first_with(ls: Seq<Seq<char>>, p: Seq<char>, limit: int) -> Option<int>
    decreases limit,
{
    if limit <= 0 || limit > ls.len() {
        None
    } else {
        match first_with(ls, p, limit - 1) {
            Some(i) => Some(i),
            None => if has_prefix(ls[limit - 1], p) {
                Some(limit - 1)
            } else {
                None
            },
        }
    }
}

/// The last of the first `limit` lines that starts with `p`.
pub open spec fn last_with(ls: Seq<Seq<char>>, p: Seq<char>, limit: int) -> Option<int>
    decreases limit,
{
    if limit <= 0 || limit > ls.len() {
        None
    } else if has_prefix(ls[limit - 1], p) {
        Some(limit - 1)
    } else {
        last_with(ls, p, limit - 1)
    }
}

/// The trimmed text after `p` on the last of the first `limit` lines that
/// starts with `p`.
pub open spec fn field_value(ls: Seq<Seq<char>>, p: Seq<char>, limit: int) -> Option<Seq<char>> {
    match last_with(ls, p, limit) {
        Some(j) => Some(trimmed(ls[j].skip(p.len() as int))),
        None => None,
    }
}

/// The key `name@version` of a `.dist-info` directory, from its `METADATA`:
/// only the header (the lines before the first empty one) counts, and the
/// reading stops at the first line by which both a `Name:` and a
/// `Version:` line have been seen; each value is the trimmed text after
/// the last such line up to there.
pub open spec fn dist_info_key(content: Seq<char>) -> Option<Seq<char>> {
    let ls = lines(content);
    let h = header_len(ls) as int;
    match (first_with(ls, "Name:"@, h), first_with(ls, "Version:"@, h)) {
        (Some(a), Some(b)) => {
            let k = if a < b {
                b
            } else {
                a
            };
            Some(
                field_value(ls, "Name:"@, k + 1)->0 + "@"@ + field_value(ls, "Version:"@, k + 1)->0,
            )
        },
        _ => None,
    }
}

proof fn lemma_first_with_stable(ls: Seq<Seq<char>>, p: Seq<char>, a: int, b: int)
    requires
        0 <= a <= b <= ls.len(),
        first_with(ls, p, a) is Some,
    ensures
        first_with(ls, p, b) == first_with(ls, p, a),
    decreases b - a,
{
    if b > a {
        lemma_first_with_stable(ls, p, a, b - 1);
    }
}

proof fn lemma_first_with_bounds(ls: Seq<Seq<char>>, p: Seq<char>, limit: int)
    ensures
        first_with(ls, p, limit) matches Some(i) ==> 0 <= i < limit && has_prefix(ls[i], p),
    decreases limit,
{
    if limit > 0 && limit <= ls.len() {
        lemma_first_with_bounds(ls, p, limit - 1);
    }
}

proof fn lemma_header_le(ls: Seq<Seq<char>>)
    ensures
        header_len(ls) <= ls.len(),
    decreases ls.len(),
{
    if ls.len() > 0 {
        lemma_header_le(ls.drop_first());
    }
}

proof fn lemma_header_len(ls: Seq<Seq<char>>, i: int)
    requires
        0 <= i <= ls.len(),
        forall|j: int| 0 <= j < i ==> (#[trigger] ls[j]).len() > 0,
    ensures
        header_len(ls) >= i,
        i < ls.len() && ls[i].len() == 0 ==> header_len(ls) == i,
        i == ls.len() ==> header_len(ls) == i,
    decreases i,
{
    if i > 0 {
        assert(ls[0].len() > 0);
        let t = ls.drop_first();
        assert forall|j: int| 0 <= j < i - 1 implies (#[trigger] t[j]).len() > 0 by {
            assert(t[j] == ls[j + 1]);
        }
        lemma_header_len(t, i - 1);
    }
}

/// The text after `p` on `line`, trimmed, when `line` starts with `p`.
fn field_after(line: &String, p: &str) -> (r: Option<String>)
    ensures
        r is Some <==> has_prefix(line@, p@),
        r matches Some(v) ==> v@ == trimmed(line@.skip(p@.len() as int)),
{
    match strip_prefix(line.as_str(), p) {
        Some(rest) => {
            assert(rest@ =~= line@.skip(p@.len() as int));
            Some(trim(rest.as_str()))
        },
        None => None,
    }
}

/// The key `name@version` that the `METADATA` text of a `.dist-info`
/// directory gives (see `dist_info_key`).
pub fn parse_dist_info_key(content: &str) -> (r: Option<String>)
    ensures
        r is Some <==> dist_info_key(content@) is Some,
        r matches Some(k) ==> k@ == dist_info_key(content@)->0,
{
    proof {
        reveal_strlit("Name:");
        reveal_strlit("Version:");
    }
    let ls = split_lines(content);
    let ghost lv = lines(content@);
    assert(texts_of(ls@) =~= lv);
    let mut name: Option<String> = None;
    let mut version: Option<String> = None;
    let mut i: usize = 0;
    while i < ls.len() && !ls[i].as_str().is_empty()
        invariant
            lv == lines(content@),
            texts_of(ls@) == lv,
            i <= lv.len(),
            forall|j: int| 0 <= j < i ==> (#[trigger] lv[j]).len() > 0,
            !(first_with(lv, "Name:"@, i as int) is Some && first_with(lv, "Version:"@, i as int) is Some),
            name is Some <==> field_value(lv, "Name:"@, i as int) is Some,
            name matches Some(n) ==> n@ == field_value(lv, "Name:"@, i as int)->0,
            version is Some <==> field_value(lv, "Version:"@, i as int) is Some,
            version matches Some(v) ==> v@ == field_value(lv, "Version:"@, i as int)->0,
            first_with(lv, "Name:"@, i as int) is Some <==> last_with(lv, "Name:"@, i as int) is Some,
            first_with(lv, "Version:"@, i as int) is Some <==> last_with(lv, "Version:"@, i as int) is Some,
        decreases lv.len() - i,
    {
        let line = &ls[i];
        assert(lv[i as int] == line@);
        match field_after(line, "Name:") {
            Some(n) => {
                name = Some(n);
            },
            None => match field_after(line, "Version:") {
                Some(v) => {
                    version = Some(v);
                },
                None => {},
            },
        }
        proof {
            if has_prefix(line@, "Name:"@) {
                assert(!has_prefix(line@, "Version:"@)) by {
                    reveal_strlit("Name:");
                    reveal_strlit("Version:");
                    assert("Name:"@[0] == 'N');
                    assert("Version:"@[0] == 'V');
                    assert(line@.subrange(0, 5)[0] == line@[0]);
                    if has_prefix(line@, "Version:"@) {
                        assert(line@.subrange(0, 8)[0] == line@[0]);
                    }
                }
            }
        }
        if name.is_some() && version.is_some() {
            proof {
                lemma_header_len(lv, i + 1);
                lemma_first_with_bounds(lv, "Name:"@, i + 1);
                lemma_first_with_bounds(lv, "Version:"@, i + 1);
                let h = header_len(lv) as int;
                lemma_header_le(lv);
                lemma_first_with_stable(lv, "Name:"@, i + 1, h);
                lemma_first_with_stable(lv, "Version:"@, i + 1, h);
            }
            let n = name.unwrap();
            let v = version.unwrap();
            let k = concat3(n.as_str(), "@", v.as_str());
            return Some(k);
        }
        i = i + 1;
    }
    proof {
        if i < lv.len() {
            assert(lv[i as int] == ls@[i as int]@);
        }
        lemma_header_len(lv, i as int);
        let h = header_len(lv);
        assert(h == i);
    }
    None
}

/// The names a `top_level.txt` lists: its lines, trimmed, without the
/// empty ones.
pub open spec fn listed_names(ls: Seq<Seq<char>>) -> Seq<Seq<char>>
    decreases ls.len(),
{
    if ls.len() == 0 {
        Seq::empty()
    } else {
        let r = listed_names(ls.drop_last());
        let t = trimmed(ls.last());
        if t.len() > 0 {
            r.push(t)
        } else {
            r
        }
    }
}

pub fn dist_info_top_level(content: &str) -> (r: Vec<String>)
    ensures
        texts_of(r@) == listed_names(lines(content@)),
{
    let ls = split_lines(content);
    let ghost lv = lines(content@);
    assert(texts_of(ls@) =~= lv);
    let mut out: Vec<String> = Vec::new();
    let mut i: usize = 0;
    assert(texts_of(out@) =~= listed_names(lv.take(0)));
    while i < ls.len()
        invariant
            lv == lines(content@),
            texts_of(ls@) == lv,
            i <= lv.len(),
            texts_of(out@) == listed_names(lv.take(i as int)),
        decreases lv.len() - i,
    {
        proof {
            assert(lv.take(i + 1).drop_last() =~= lv.take(i as int));
            assert(lv.take(i + 1).last() == ls@[i as int]@);
        }
        let t = trim(ls[i].as_str());
        let ghost prev = texts_of(out@);
        if !t.as_str().is_empty() {
            out.push(t);
            assert(texts_of(out@) =~= prev.push(trimmed(lv[i as int])));
        }
        i = i + 1;
    }
    assert(lv.take(lv.len() as int) =~= lv);
    out
}


// ── Package indexes ─────────────────────────────────────────────────

/// A package found during a scan: its key `name@version` and the
/// directories that hold it.
pub type Found = (Seq<char>, Seq<Seq<char>>);

/// Some package found has key `k`.
pub open spec fn found_key(fs: Seq<Found>, k: Seq<char>) -> bool {
    exists|i: int| 0 <= i < fs.len() && (#[trigger] fs[i]).0 == k
}

/// The directories of every package found with key `k`, in the order they
/// were found.
pub open spec fn found_dirs(fs: Seq<Found>, k: Seq<char>) -> Seq<Seq<char>>
    decreases fs.len(),
{
    if fs.len() == 0 {
        Seq::empty()
    } else if fs.last().0 == k {
        found_dirs(fs.drop_last(), k) + fs.last().1
    } else {
        found_dirs(fs.drop_last(), k)
    }
}

/// `index` maps each key that was found to all of its directories, as a
/// `BTreeMap` filled with `entry(key).or_default().extend(dirs)` does.
pub open spec fn indexes(index: StrMap<Vec<String>>, fs: Seq<Found>) -> bool {
    &&& forall|k: Seq<char>| #[trigger] index.has(k) <==> found_key(fs, k)
    &&& forall|k: Seq<char>|
        #[trigger] index.has(k) ==> texts_of(index.value_of(k)@) == found_dirs(fs, k)
}

proof fn lemma_found_dirs_absent(fs: Seq<Found>, k: Seq<char>)
    requires
        !found_key(fs, k),
    ensures
        found_dirs(fs, k) == Seq::<Seq<char>>::empty(),
    decreases fs.len(),
{
    if fs.len() > 0 {
        assert(!found_key(fs.drop_last(), k)) by {
            if found_key(fs.drop_last(), k) {
                let i = choose|i: int| 0 <= i < fs.drop_last().len() && (#[trigger] fs.drop_last()[i]).0 == k;
                assert(fs[i] == fs.drop_last()[i]);
            }
        }
        assert(fs[fs.len() - 1] == fs.last());
        lemma_found_dirs_absent(fs.drop_last(), k);
    }
}

fn copy_texts(v: &Vec<String>) -> (r: Vec<String>)
    ensures
        texts_of(r@) == texts_of(v@),
{
    let mut r: Vec<String> = Vec::new();
    let mut i: usize = 0;
    while i < v.len()
        invariant
            i <= v@.len(),
            texts_of(r@) == texts_of(v@).take(i as int),
        decreases v@.len() - i,
    {
        let c = v[i].clone();
        assert(c@ == texts_of(v@)[i as int]);
        let ghost prev = r@;
        r.push(c);
        assert(texts_of(r@) =~= texts_of(prev).push(c@));
        assert(texts_of(r@) =~= texts_of(v@).take(i + 1));
        i = i + 1;
    }
    assert(texts_of(v@).take(v@.len() as int) =~= texts_of(v@));
    r
}

/// Records that the package `key` was found in `dirs`.
fn add_found(index: &mut StrMap<Vec<String>>, key: String, dirs: Vec<String>, Ghost(fs): Ghost<Seq<Found>>)
    requires
        indexes(*old(index), fs),
    ensures
        indexes(*final(index), fs.push((key@, texts_of(dirs@)))),
{
    let ghost f: Found = (key@, texts_of(dirs@));
    let ghost fs2 = fs.push(f);
    let mut cur = match index.get(key.as_str()) {
        Some(v) => copy_texts(v),
        None => Vec::new(),
    };
    let ghost before = texts_of(cur@);
    let mut i: usize = 0;
    while i < dirs.len()
        invariant
            i <= dirs@.len(),
            texts_of(cur@) == before + texts_of(dirs@).take(i as int),
        decreases dirs@.len() - i,
    {
        let c = dirs[i].clone();
        assert(c@ == texts_of(dirs@)[i as int]);
        let ghost prev = cur@;
        cur.push(c);
        assert(texts_of(cur@) =~= texts_of(prev).push(c@));
        assert(texts_of(cur@) =~= before + texts_of(dirs@).take(i + 1));
        i = i + 1;
    }
    assert(texts_of(dirs@).take(dirs@.len() as int) =~= texts_of(dirs@));
    let ghost old_index = *index;
    index.insert(key, cur);
    proof {
        assert(fs2.drop_last() =~= fs);
        assert(fs2.last() == f);
        if !old_index.has(f.0) {
            lemma_found_dirs_absent(fs, f.0);
            assert(before =~= Seq::<Seq<char>>::empty());
        }
        assert forall|k: Seq<char>| #[trigger] index.has(k) <==> found_key(fs2, k) by {
            if found_key(fs, k) {
                let i = choose|i: int| 0 <= i < fs.len() && (#[trigger] fs[i]).0 == k;
                assert(fs2[i] == fs[i]);
            }
            if k == f.0 {
                assert(fs2[fs.len() as int] == f);
            }
            if found_key(fs2, k) && k != f.0 {
                let i = choose|i: int| 0 <= i < fs2.len() && (#[trigger] fs2[i]).0 == k;
                assert(fs[i] == fs2[i]);
            }
        }
        assert forall|k: Seq<char>| #[trigger] index.has(k) implies texts_of(index.value_of(k)@)
            == found_dirs(fs2, k) by {
            if k != f.0 {
                assert(old_index.has(k));
            }
        }
    }
}

// ── Node.js scanning ────────────────────────────────────────────────

/// A directory entry met while scanning `node_modules`.
pub struct PackageDir {
    /// Its file name.
    pub name: String,
    pub path: String,
    /// Whether it is a directory, following a symbolic link.
    pub is_dir: bool,
    pub is_symlink: bool,
    /// Its `package.json`, when it has one that could be read and parsed.
    pub manifest: Option<Value>,
}

/// An entry of a `node_modules` directory.
pub struct ModulesEntry {
    pub dir: PackageDir,
    /// For a scope directory (a name starting with `@`): its listing, when
    /// it could be read.
    pub scoped: Option<Vec<PackageDir>>,
}

/// An entry of bun's `node_modules/.bun` store.
pub struct BunEntry {
    pub name: String,
    pub is_dir: bool,
    /// The listing of its `node_modules`, when that exists and could be read.
    pub modules: Option<Vec<ModulesEntry>>,
}

/// What a workspace's `node_modules` holds: nothing, bun's layout (a
/// `.bun` directory, with its listing when it could be read) or the flat
/// layout (with its listing when it could be read).
pub enum NodeModules {
    Missing,
    Bun(Option<Vec<BunEntry>>),
    Flat(Option<Vec<ModulesEntry>>),
}

/// A name that starts with `c`.
pub open spec fn starts_with_char(name: Seq<char>, c: char) -> bool {
    name.len() > 0 && name[0] == c
}

fn starts_with_char_exec(name: &str, c: char) -> (r: bool)
    ensures
        r == starts_with_char(name@, c),
{
    let cs = chars_of(name);
    cs.len() > 0 && cs[0] == c
}

/// Whether an entry of `node_modules` named `name` is a scope directory,
/// whose entries are the packages (see `ModulesEntry::scoped`).
pub fn is_scope_name(name: &str) -> (r: bool)
    ensures
        r == starts_with_char(name@, '@'),
{
    starts_with_char_exec(name, '@')
}

/// The key `name@version` of a `package.json` whose `name` and `version`
/// are non-empty strings.
pub open spec fn package_key(manifest: Option<Value>) -> Option<Seq<char>> {
    match manifest {
        Some(m) => match (m@.field_text("name"@), m@.field_text("version"@)) {
            (Some(n), Some(v)) => if n.len() > 0 && v.len() > 0 {
                Some(n + "@"@ + v)
            } else {
                None
            },
            _ => None,
        },
        None => None,
    }
}

fn package_key_exec(manifest: &Option<Value>) -> (r: Option<String>)
    ensures
        r is Some <==> package_key(*manifest) is Some,
        r matches Some(k) ==> k@ == package_key(*manifest)->0,
{
    match manifest {
        Some(m) => {
            let n = m.get_str("name");
            let v = m.get_str("version");
            match (n, v) {
                (Some(n), Some(v)) => {
                    if n.as_str().is_empty() || v.as_str().is_empty() {
                        None
                    } else {
                        Some(concat3(n.as_str(), "@", v.as_str()))
                    }
                },
                _ => None,
            }
        },
        None => None,
    }
}

/// What a package directory adds to a scan.
pub open spec fn dir_found(d: PackageDir) -> Seq<Found> {
    match package_key(d.manifest) {
        Some(k) => seq![(k, seq![d.path@])],
        None => Seq::empty(),
    }
}

/// What the packages of a scope directory add: each entry that is a
/// directory and not a symbolic link.
pub open spec fn scoped_found(s: Seq<PackageDir>) -> Seq<Found>
    decreases s.len(),
{
    if s.len() == 0 {
        Seq::empty()
    } else {
        let d = s.last();
        scoped_found(s.drop_last()) + if !d.is_symlink && d.is_dir {
            dir_found(d)
        } else {
            Seq::empty()
        }
    }
}

/// What an entry of `node_modules` adds: nothing for a symbolic link, a
/// non-directory or a hidden entry; the packages of a scope directory; or
/// the package itself.
pub open spec fn entry_found(e: ModulesEntry) -> Seq<Found> {
    if e.dir.is_symlink || !e.dir.is_dir || starts_with_char(e.dir.name@, '.') {
        Seq::empty()
    } else if starts_with_char(e.dir.name@, '@') {
        match e.scoped {
            Some(s) => scoped_found(s@),
            None => Seq::empty(),
        }
    } else {
        dir_found(e.dir)
    }
}

pub open spec fn modules_found(s: Seq<ModulesEntry>) -> Seq<Found>
    decreases s.len(),
{
    if s.len() == 0 {
        Seq::empty()
    } else {
        modules_found(s.drop_last()) + entry_found(s.last())
    }
}

/// What an entry of bun's store adds: the packages of its `node_modules`,
/// for a directory that is not hidden.
pub open spec fn bun_entry_found(b: BunEntry) -> Seq<Found> {
    if b.is_dir && !starts_with_char(b.name@, '.') {
        match b.modules {
            Some(m) => modules_found(m@),
            None => Seq::empty(),
        }
    } else {
        Seq::empty()
    }
}

pub open spec fn bun_found(s: Seq<BunEntry>) -> Seq<Found>
    decreases s.len(),
{
    if s.len() == 0 {
        Seq::empty()
    } else {
        bun_found(s.drop_last()) + bun_entry_found(s.last())
    }
}

/// The packages a scan of `node_modules` finds, in the order it finds them.
pub open spec fn node_found(l: NodeModules) -> Seq<Found> {
    match l {
        NodeModules::Missing => Seq::empty(),
        NodeModules::Bun(Some(v)) => bun_found(v@),
        NodeModules::Bun(None) => Seq::empty(),
        NodeModules::Flat(Some(v)) => modules_found(v@),
        NodeModules::Flat(None) => Seq::empty(),
    }
}

fn add_dir(index: &mut StrMap<Vec<String>>, d: &PackageDir, Ghost(fs): Ghost<Seq<Found>>)
    requires
        indexes(*old(index), fs),
    ensures
        indexes(*final(index), fs + dir_found(*d)),
{
    match package_key_exec(&d.manifest) {
        Some(k) => {
            let mut dirs: Vec<String> = Vec::new();
            dirs.push(d.path.clone());
            assert(texts_of(dirs@) =~= seq![d.path@]);
            add_found(index, k, dirs, Ghost(fs));
            assert(fs.push((package_key(d.manifest)->0, seq![d.path@])) =~= fs + dir_found(*d));
        },
        None => {
            assert(fs + dir_found(*d) =~= fs);
        },
    }
}

fn add_scoped(index: &mut StrMap<Vec<String>>, s: &Vec<PackageDir>, Ghost(fs): Ghost<Seq<Found>>)
    requires
        indexes(*old(index), fs),
    ensures
        indexes(*final(index), fs + scoped_found(s@)),
{
    let mut i: usize = 0;
    assert(s@.take(0) =~= Seq::<PackageDir>::empty());
    assert(fs + scoped_found(s@.take(0)) =~= fs);
    while i < s.len()
        invariant
            i <= s@.len(),
            indexes(*index, fs + scoped_found(s@.take(i as int))),
        decreases s@.len() - i,
    {
        let d = &s[i];
        let ghost pre = fs + scoped_found(s@.take(i as int));
        assert(s@.take(i + 1).drop_last() =~= s@.take(i as int));
        assert(s@.take(i + 1).last() == *d);
        if !d.is_symlink && d.is_dir {
            add_dir(index, d, Ghost(pre));
            assert(pre + dir_found(*d) =~= fs + scoped_found(s@.take(i + 1)));
        } else {
            assert(pre =~= fs + scoped_found(s@.take(i + 1)));
        }
        i = i + 1;
    }
    assert(s@.take(s@.len() as int) =~= s@);
}

fn add_entry(index: &mut StrMap<Vec<String>>, e: &ModulesEntry, Ghost(fs): Ghost<Seq<Found>>)
    requires
        indexes(*old(index), fs),
    ensures
        indexes(*final(index), fs + entry_found(*e)),
{
    if e.dir.is_symlink || !e.dir.is_dir || starts_with_char_exec(e.dir.name.as_str(), '.') {
        assert(fs + entry_found(*e) =~= fs);
    } else if starts_with_char_exec(e.dir.name.as_str(), '@') {
        match &e.scoped {
            Some(s) => add_scoped(index, s, Ghost(fs)),
            None => {
                assert(fs + entry_found(*e) =~= fs);
            },
        }
    } else {
        add_dir(index, &e.dir, Ghost(fs));
    }
}

fn add_modules(index: &mut StrMap<Vec<String>>, s: &Vec<ModulesEntry>, Ghost(fs): Ghost<Seq<Found>>)
    requires
        indexes(*old(index), fs),
    ensures
        indexes(*final(index), fs + modules_found(s@)),
{
    let mut i: usize = 0;
    assert(s@.take(0) =~= Seq::<ModulesEntry>::empty());
    assert(fs + modules_found(s@.take(0)) =~= fs);
    while i < s.len()
        invariant
            i <= s@.len(),
            indexes(*index, fs + modules_found(s@.take(i as int))),
        decreases s@.len() - i,
    {
        let ghost pre = fs + modules_found(s@.take(i as int));
        assert(s@.take(i + 1).drop_last() =~= s@.take(i as int));
        assert(s@.take(i + 1).last() == s@[i as int]);
        add_entry(index, &s[i], Ghost(pre));
        assert(pre + entry_found(s@[i as int]) =~= fs + modules_found(s@.take(i + 1)));
        i = i + 1;
    }
    assert(s@.take(s@.len() as int) =~= s@);
}

fn add_bun(index: &mut StrMap<Vec<String>>, s: &Vec<BunEntry>, Ghost(fs): Ghost<Seq<Found>>)
    requires
        indexes(*old(index), fs),
    ensures
        indexes(*final(index), fs + bun_found(s@)),
{
    let mut i: usize = 0;
    assert(s@.take(0) =~= Seq::<BunEntry>::empty());
    assert(fs + bun_found(s@.take(0)) =~= fs);
    while i < s.len()
        invariant
            i <= s@.len(),
            indexes(*index, fs + bun_found(s@.take(i as int))),
        decreases s@.len() - i,
    {
        let b = &s[i];
        let ghost pre = fs + bun_found(s@.take(i as int));
        assert(s@.take(i + 1).drop_last() =~= s@.take(i as int));
        assert(s@.take(i + 1).last() == *b);
        if b.is_dir && !starts_with_char_exec(b.name.as_str(), '.') {
            match &b.modules {
                Some(m) => {
                    add_modules(index, m, Ghost(pre));
                },
                None => {},
            }
        }
        assert(pre + bun_entry_found(*b) =~= fs + bun_found(s@.take(i + 1)));
        i = i + 1;
    }
    assert(s@.take(s@.len() as int) =~= s@);
}

fn empty_index() -> (index: StrMap<Vec<String>>)
    ensures
        indexes(index, Seq::empty()),
{
    let index: StrMap<Vec<String>> = StrMap::new();
    assert forall|k: Seq<char>| #[trigger] index.has(k) <==> found_key(Seq::<Found>::empty(), k) by {}
    index
}

/// The packages installed in a workspace's `node_modules`, by key
/// `name@version`, each with the directories that hold it: bun's layout
/// is read from `.bun/*/node_modules`, any other from `node_modules`
/// itself; scope directories are looked into, and symbolic links, hidden
/// entries and directories without a usable `package.json` are passed
/// over.
pub fn scan_node_packages(node_modules: &NodeModules) -> (r: StrMap<Vec<String>>)
    ensures
        indexes(r, node_found(*node_modules)),
{
    let mut index = empty_index();
    match node_modules {
        NodeModules::Missing => {},
        NodeModules::Bun(Some(v)) => {
            add_bun(&mut index, v, Ghost(Seq::empty()));
            assert(Seq::<Found>::empty() + bun_found(v@) =~= bun_found(v@));
        },
        NodeModules::Bun(None) => {},
        NodeModules::Flat(Some(v)) => {
            add_modules(&mut index, v, Ghost(Seq::empty()));
            assert(Seq::<Found>::empty() + modules_found(v@) =~= modules_found(v@));
        },
        NodeModules::Flat(None) => {},
    }
    index
}


// ── Python scanning ─────────────────────────────────────────────────

/// An entry of a `site-packages` directory.
pub struct SiteEntry {
    pub path: String,
    /// Whether it is a directory, following a symbolic link.
    pub is_dir: bool,
    /// The text of its `METADATA` file, when it has one that could be read.
    pub metadata: Option<String>,
    /// The text of its `top_level.txt`, when it has one that could be read.
    pub top_level: Option<String>,
    /// For each name that `top_level` lists (see `dist_info_top_level`), in
    /// order: what `site-packages/<name>` is.
    pub top_dirs: Vec<TopDir>,
}

/// What a path named by `top_level.txt` is.
pub struct TopDir {
    /// Whether it is a directory, following a symbolic link.
    pub is_dir: bool,
    pub is_symlink: bool,
}

/// A `site-packages` directory, with its listing when it could be read.
pub struct SitePackages {
    pub path: String,
    pub entries: Option<Vec<SiteEntry>>,
}

/// An entry of a virtual environment's `lib` directory, with the
/// `site-packages` directory it holds, when it holds one.
pub struct LibEntry {
    pub name: String,
    pub site_packages: Option<SitePackages>,
}

/// A workspace's `.venv`: the listing of its `lib` directory, when that
/// exists and could be read.
pub struct Venv {
    pub lib: Option<Vec<LibEntry>>,
}

/// The first `lib/python*` directory that holds a `site-packages`.
pub open spec fn first_site(libs: Seq<LibEntry>) -> Option<SitePackages>
    decreases libs.len(),
{
    if libs.len() == 0 {
        None
    } else if has_prefix(libs[0].name@, "python"@) && libs[0].site_packages is Some {
        libs[0].site_packages
    } else {
        first_site(libs.drop_first())
    }
}

/// The `site-packages` directory of a virtual environment, when it has one.
pub fn find_site_packages(venv: &Venv) -> (r: Option<&SitePackages>)
    ensures
        r is Some <==> (venv.lib is Some && first_site(venv.lib->0@) is Some),
        r matches Some(s) ==> *s == first_site(venv.lib->0@)->0,
{
    match &venv.lib {
        Some(libs) => {
            let mut i: usize = 0;
            assert(libs@.skip(0) =~= libs@);
            while i < libs.len()
                invariant
                    venv.lib == Some(*libs),
                    i <= libs@.len(),
                    first_site(libs@) == first_site(libs@.skip(i as int)),
                decreases libs@.len() - i,
            {
                let e = &libs[i];
                assert(libs@.skip(i as int)[0] == *e);
                assert(libs@.skip(i as int).drop_first() =~= libs@.skip(i + 1));
                if starts_with(e.name.as_str(), "python") {
                    match &e.site_packages {
                        Some(site) => {
                            assert(first_site(libs@.skip(i as int)) == Some(*site));
                            return Some(site);
                        },
                        None => {},
                    }
                }
                i = i + 1;
            }
            None
        },
        None => None,
    }
}

/// The names a `top_level.txt` lists, or none when there is no such file.
pub open spec fn top_level_names(top_level: Option<String>) -> Seq<Seq<char>> {
    match top_level {
        Some(c) => listed_names(lines(c@)),
        None => Seq::empty(),
    }
}

/// The directories `site/<name>` among `names` that the probes show to be
/// directories and not symbolic links.
pub open spec fn top_dirs(site: Seq<char>, names: Seq<Seq<char>>, probes: Seq<TopDir>) -> Seq<Seq<char>>
    decreases names.len(),
{
    if names.len() == 0 {
        Seq::empty()
    } else {
        let n = names.len() - 1;
        top_dirs(site, names.drop_last(), probes) + if n < probes.len() && probes[n].is_dir && !probes[n].is_symlink {
            seq![path_join(site, names[n])]
        } else {
            Seq::empty()
        }
    }
}

/// What an entry of `site-packages` adds: for a `.dist-info` directory
/// whose `METADATA` gives a key, that key with the directory itself and
/// the package directories its `top_level.txt` names.
pub open spec fn site_entry_found(site: Seq<char>, e: SiteEntry) -> Seq<Found> {
    if e.is_dir && has_suffix(e.path@, ".dist-info"@) {
        match e.metadata {
            Some(m) => match dist_info_key(m@) {
                Some(k) => seq![
                    (k, seq![e.path@] + top_dirs(site, top_level_names(e.top_level), e.top_dirs@)),
                ],
                None => Seq::empty(),
            },
            None => Seq::empty(),
        }
    } else {
        Seq::empty()
    }
}

pub open spec fn site_found(site: Seq<char>, s: Seq<SiteEntry>) -> Seq<Found>
    decreases s.len(),
{
    if s.len() == 0 {
        Seq::empty()
    } else {
        site_found(site, s.drop_last()) + site_entry_found(site, s.last())
    }
}

/// The packages a scan of a virtual environment finds, in order.
pub open spec fn python_found(venv: Venv) -> Seq<Found> {
    match venv.lib {
        Some(libs) => match first_site(libs@) {
            Some(site) => match site.entries {
                Some(es) => site_found(site.path@, es@),
                None => Seq::empty(),
            },
            None => Seq::empty(),
        },
        None => Seq::empty(),
    }
}

fn add_site_entry(index: &mut StrMap<Vec<String>>, site: &str, e: &SiteEntry, Ghost(fs): Ghost<Seq<Found>>)
    requires
        indexes(*old(index), fs),
    ensures
        indexes(*final(index), fs + site_entry_found(site@, *e)),
{
    if !(e.is_dir && ends_with(e.path.as_str(), ".dist-info")) {
        assert(fs + site_entry_found(site@, *e) =~= fs);
        return;
    }
    let key = match &e.metadata {
        Some(m) => parse_dist_info_key(m.as_str()),
        None => None,
    };
    match key {
        Some(k) => {
            let names = match &e.top_level {
                Some(c) => dist_info_top_level(c.as_str()),
                None => Vec::new(),
            };
            let ghost nv = top_level_names(e.top_level);
            assert(texts_of(names@) =~= nv);
            let mut dirs: Vec<String> = Vec::new();
            dirs.push(e.path.clone());
            assert(texts_of(dirs@) =~= seq![e.path@] + top_dirs(site@, nv.take(0), e.top_dirs@));
            let mut i: usize = 0;
            while i < names.len()
                invariant
                    i <= names@.len(),
                    texts_of(names@) == nv,
                    texts_of(dirs@) == seq![e.path@] + top_dirs(site@, nv.take(i as int), e.top_dirs@),
                decreases names@.len() - i,
            {
                assert(nv.take(i + 1).drop_last() =~= nv.take(i as int));
                assert(nv.take(i + 1)[i as int] == names@[i as int]@);
                if i < e.top_dirs.len() && e.top_dirs[i].is_dir && !e.top_dirs[i].is_symlink {
                    let d = join(site, names[i].as_str());
                    let ghost prev = dirs@;
                    dirs.push(d);
                    assert(texts_of(dirs@) =~= texts_of(prev).push(d@));
                }
                assert(texts_of(dirs@) =~= seq![e.path@] + top_dirs(site@, nv.take(i + 1), e.top_dirs@));
                i = i + 1;
            }
            assert(nv.take(names@.len() as int) =~= nv);
            let ghost f: Found = (k@, texts_of(dirs@));
            add_found(index, k, dirs, Ghost(fs));
            assert(fs.push(f) =~= fs + site_entry_found(site@, *e));
        },
        None => {
            assert(fs + site_entry_found(site@, *e) =~= fs);
        },
    }
}

/// The packages installed in a workspace's virtual environment, by key
/// `name@version`, each with its `.dist-info` directory and the package
/// directories its `top_level.txt` names; only the first `lib/python*`
/// that has a `site-packages` is looked into.
pub fn scan_python_packages(venv: &Venv) -> (r: StrMap<Vec<String>>)
    ensures
        indexes(r, python_found(*venv)),
{
    let mut index = empty_index();
    match find_site_packages(venv) {
        Some(site) => match &site.entries {
            Some(es) => {
                let ghost sp = site.path@;
                let mut i: usize = 0;
                assert(Seq::<Found>::empty() + site_found(sp, es@.take(0)) =~= Seq::<Found>::empty());
                while i < es.len()
                    invariant
                        i <= es@.len(),
                        sp == site.path@,
                        indexes(index, site_found(sp, es@.take(i as int))),
                    decreases es@.len() - i,
                {
                    let ghost pre = site_found(sp, es@.take(i as int));
                    assert(es@.take(i + 1).drop_last() =~= es@.take(i as int));
                    assert(es@.take(i + 1).last() == es@[i as int]);
                    add_site_entry(&mut index, site.path.as_str(), &es[i], Ghost(pre));
                    i = i + 1;
                }
                assert(es@.take(es@.len() as int) =~= es@);
            },
            None => {},
        },
        None => {},
    }
    index
}


// ── Deduplication across workspaces ─────────────────────────────────

/// What deduplication and pruning read of one workspace.
pub struct WorkspaceListing {
    pub node_modules: NodeModules,
    pub venv: Venv,
}

/// The directories of each package list, as text.
pub open spec fn lists_view(v: Vec<Vec<String>>) -> Seq<Seq<Seq<char>>> {
    v@.map_values(|l: Vec<String>| texts_of(l@))
}

/// Some workspace holds the package `k`.
pub open spec fn in_any(per_ws: Seq<Seq<Found>>, k: Seq<char>) -> bool {
    exists|w: int| 0 <= w < per_ws.len() && found_key(#[trigger] per_ws[w], k)
}

/// For each workspace that holds the package `k`, in workspace order, the
/// directories it holds it in.
pub open spec fn lists_for(per_ws: Seq<Seq<Found>>, k: Seq<char>) -> Seq<Seq<Seq<char>>>
    decreases per_ws.len(),
{
    if per_ws.len() == 0 {
        Seq::empty()
    } else if found_key(per_ws.last(), k) {
        lists_for(per_ws.drop_last(), k).push(found_dirs(per_ws.last(), k))
    } else {
        lists_for(per_ws.drop_last(), k)
    }
}

/// `index` maps each package that some workspace holds to its directory
/// lists, one per workspace that holds it.
pub open spec fn global_indexes(index: StrMap<Vec<Vec<String>>>, per_ws: Seq<Seq<Found>>) -> bool {
    &&& forall|k: Seq<char>| #[trigger] index.has(k) <==> in_any(per_ws, k)
    &&& forall|k: Seq<char>|
        #[trigger] index.has(k) ==> lists_view(index.value_of(k)) == lists_for(per_ws, k)
}

fn copy_lists(v: &Vec<Vec<String>>) -> (r: Vec<Vec<String>>)
    ensures
        lists_view(r) == lists_view(*v),
{
    let mut r: Vec<Vec<String>> = Vec::new();
    let mut i: usize = 0;
    while i < v.len()
        invariant
            i <= v@.len(),
            lists_view(r) == lists_view(*v).take(i as int),
        decreases v@.len() - i,
    {
        let c = copy_texts(&v[i]);
        let ghost prev = r;
        r.push(c);
        assert(lists_view(r) =~= lists_view(prev).push(texts_of(c@)));
        assert(lists_view(r) =~= lists_view(*v).take(i + 1));
        i = i + 1;
    }
    assert(lists_view(*v).take(v@.len() as int) =~= lists_view(*v));
    r
}

/// Adds one workspace's scan to the global index.
fn add_workspace(
    index: &mut StrMap<Vec<Vec<String>>>,
    scan: &StrMap<Vec<String>>,
    Ghost(per_ws): Ghost<Seq<Seq<Found>>>,
    Ghost(found): Ghost<Seq<Found>>,
)
    requires
        global_indexes(*old(index), per_ws),
        indexes(*scan, found),
    ensures
        global_indexes(*final(index), per_ws.push(found)),
{
    proof {
        use_type_invariant(scan);
    }
    let ghost all = per_ws.push(found);
    let ghost ks = scan.keys();
    let n = scan.len();
    let mut i: usize = 0;
    while i < n
        invariant
            n == ks.len(),
            ks == scan.keys(),
            scan.well_formed(),
            indexes(*scan, found),
            i <= n,
            forall|k: Seq<char>| #[trigger] index.has(k) <==> (in_any(per_ws, k) || ks.take(i as int).contains(k)),
            forall|k: Seq<char>| #[trigger] index.has(k) ==> lists_view(index.value_of(k)) == if ks.take(
                i as int,
            ).contains(k) {
                lists_for(per_ws, k).push(texts_of(scan.value_of(k)@))
            } else {
                lists_for(per_ws, k)
            },
        decreases n - i,
    {
        let key = scan.key_at(i);
        let dirs = scan.value_at(i);
        proof {
            scan.lemma_lengths();
            scan.lemma_key_index(i as int);
        }
        let mut lists = match index.get(key.as_str()) {
            Some(v) => copy_lists(v),
            None => Vec::new(),
        };
        let ghost before = lists_view(lists);
        let d = copy_texts(dirs);
        lists.push(d);
        assert(lists_view(lists) =~= before.push(texts_of(d@)));
        let ghost old_index = *index;
        index.insert(key.clone(), lists);
        proof {
            let kk = ks[i as int];
            assert(!ks.take(i as int).contains(kk)) by {
                let t0 = ks.take(i as int);
                if t0.contains(kk) {
                    let j = choose|j: int| 0 <= j < t0.len() && t0[j] == kk;
                    assert(ks[j] == kk);
                    lemma_str_lt_irreflexive(kk);
                }
            }
            if !old_index.has(kk) {
                assert(!in_any(per_ws, kk));
                lemma_lists_for_absent(per_ws, kk);
                assert(before =~= Seq::<Seq<Seq<char>>>::empty());
            }
            let t0 = ks.take(i as int);
            let t1 = ks.take(i + 1);
            assert forall|k: Seq<char>| #[trigger] t1.contains(k) <==> (t0.contains(k) || k == kk) by {
                if t1.contains(k) {
                    let j = choose|j: int| 0 <= j < t1.len() && t1[j] == k;
                    if j < i {
                        assert(t0[j] == k);
                    }
                }
                if t0.contains(k) {
                    let j = choose|j: int| 0 <= j < t0.len() && t0[j] == k;
                    assert(t1[j] == k);
                }
                if k == kk {
                    assert(t1[i as int] == k);
                }
            }
            assert forall|k: Seq<char>| #[trigger] index.has(k) implies lists_view(index.value_of(k)) == if ks.take(
                i + 1,
            ).contains(k) {
                lists_for(per_ws, k).push(texts_of(scan.value_of(k)@))
            } else {
                lists_for(per_ws, k)
            } by {
                if k != kk {
                    assert(old_index.has(k));
                }
            }
        }
        i = i + 1;
    }
    proof {
        assert(ks.take(n as int) =~= ks);
        assert(all.drop_last() =~= per_ws);
        assert(all.last() == found);
        assert forall|k: Seq<char>| #[trigger] index.has(k) <==> in_any(all, k) by {
            if in_any(per_ws, k) {
                let w = choose|w: int| 0 <= w < per_ws.len() && found_key(#[trigger] per_ws[w], k);
                assert(all[w] == per_ws[w]);
            }
            if found_key(found, k) {
                assert(all[per_ws.len() as int] == found);
                assert(scan.has(k));
            }
            if in_any(all, k) {
                let w = choose|w: int| 0 <= w < all.len() && found_key(#[trigger] all[w], k);
                if w < per_ws.len() {
                    assert(per_ws[w] == all[w]);
                } else {
                    assert(scan.has(k));
                }
            }
            if ks.contains(k) {
                assert(scan.has(k));
            }
        }
        assert forall|k: Seq<char>| #[trigger] index.has(k) implies lists_view(index.value_of(k))
            == lists_for(all, k) by {
            if ks.contains(k) {
                assert(scan.has(k));
            } else {
                assert(!scan.has(k));
            }
        }
    }
}

proof fn lemma_lists_for_absent(per_ws: Seq<Seq<Found>>, k: Seq<char>)
    requires
        !in_any(per_ws, k),
    ensures
        lists_for(per_ws, k) == Seq::<Seq<Seq<char>>>::empty(),
    decreases per_ws.len(),
{
    if per_ws.len() > 0 {
        let p = per_ws.drop_last();
        assert(!in_any(p, k)) by {
            if in_any(p, k) {
                let w = choose|w: int| 0 <= w < p.len() && found_key(#[trigger] p[w], k);
                assert(per_ws[w] == p[w]);
            }
        }
        assert(per_ws[per_ws.len() - 1] == per_ws.last());
        lemma_lists_for_absent(p, k);
    }
}


/// A file-system step of deduplication.
pub enum DedupAction {
    /// Copy the package directory `from` into the store at `to`, unless
    /// something already stands at `to`.
    Copy { from: String, to: String },
    /// Hard-link the files of the store directory `store`, where it exists,
    /// over their copies in the package directory `target`.
    Link { store: String, target: String },
}

pub enum ActionView {
    Copy(Seq<char>, Seq<char>),
    Link(Seq<char>, Seq<char>),
}

impl View for DedupAction {
    type V = ActionView;

    open spec fn view(&self) -> ActionView {
        match self {
            DedupAction::Copy { from, to } => ActionView::Copy(from@, to@),
            DedupAction::Link { store, target } => ActionView::Link(store@, target@),
        }
    }
}

pub open spec fn actions_view(v: Seq<DedupAction>) -> Seq<ActionView> {
    v.map_values(|a: DedupAction| a@)
}

/// Where the store keeps the copy of the package directory `dir` of
/// package `key`: the store directory of the key, then the directory's
/// file name.
pub open spec fn stored(root: Seq<char>, ecosystem: Seq<char>, key: Seq<char>, dir: Seq<char>) -> Seq<char> {
    store_entry_path(store_dir(root, ecosystem, key), file_name_of(dir))
}

/// The entry of a store directory for a package directory with file name
/// `name`: the store directory joined with the name, or with the empty
/// name when the package directory has none.
pub open spec fn store_entry_path(store: Seq<char>, name: Option<Seq<char>>) -> Seq<char> {
    path_join(
        store,
        match name {
            Some(n) => n,
            None => Seq::empty(),
        },
    )
}

/// The path under the store directory `store` that keeps a package
/// directory whose file name is `name` (see `store_entry_path`).
pub fn store_entry(store: &str, name: Option<String>) -> (r: String)
    ensures
        r@ == store_entry_path(
            store@,
            match name {
                Some(n) => Some(n@),
                None => None,
            },
        ),
{
    match &name {
        Some(n) => join(store, n.as_str()),
        None => {
            proof {
                reveal_strlit("");
            }
            join(store, "")
        },
    }
}

pub open spec fn copy_actions(root: Seq<char>, eco: Seq<char>, key: Seq<char>, dirs: Seq<Seq<char>>) -> Seq<ActionView> {
    Seq::new(dirs.len(), |i: int| ActionView::Copy(dirs[i], stored(root, eco, key, dirs[i])))
}

pub open spec fn link_actions(root: Seq<char>, eco: Seq<char>, key: Seq<char>, dirs: Seq<Seq<char>>) -> Seq<ActionView> {
    Seq::new(dirs.len(), |i: int| ActionView::Link(stored(root, eco, key, dirs[i]), dirs[i]))
}

pub open spec fn lists_links(
    root: Seq<char>,
    eco: Seq<char>,
    key: Seq<char>,
    lists: Seq<Seq<Seq<char>>>,
) -> Seq<ActionView>
    decreases lists.len(),
{
    if lists.len() == 0 {
        Seq::empty()
    } else {
        lists_links(root, eco, key, lists.drop_last()) + link_actions(root, eco, key, lists.last())
    }
}

/// The steps for one package: none unless at least two workspaces hold it;
/// otherwise the directories of the first workspace are copied into the
/// store, then every workspace's directories are linked to the store.
pub open spec fn key_actions(root: Seq<char>, eco: Seq<char>, key: Seq<char>, lists: Seq<Seq<Seq<char>>>) -> Seq<
    ActionView,
> {
    if lists.len() < 2 {
        Seq::empty()
    } else {
        copy_actions(root, eco, key, lists[0]) + lists_links(root, eco, key, lists)
    }
}

/// The steps for the first `n` packages of the index, in key order.
pub open spec fn index_actions(root: Seq<char>, eco: Seq<char>, index: StrMap<Vec<Vec<String>>>, n: int) -> Seq<
    ActionView,
>
    decreases n,
{
    if n <= 0 {
        Seq::empty()
    } else {
        index_actions(root, eco, index, n - 1) + key_actions(
            root,
            eco,
            index.keys()[n - 1],
            lists_view(index.values()[n - 1]),
        )
    }
}

/// How many of the first `n` packages at least two workspaces hold.
pub open spec fn shared_count(index: StrMap<Vec<Vec<String>>>, n: int) -> nat
    decreases n,
{
    if n <= 0 {
        0
    } else {
        shared_count(index, n - 1) + if index.values()[n - 1]@.len() >= 2 {
            1nat
        } else {
            0nat
        }
    }
}

/// How many copies beyond the first the first `n` shared packages had.
pub open spec fn saved_count(index: StrMap<Vec<Vec<String>>>, n: int) -> nat
    decreases n,
{
    if n <= 0 {
        0
    } else {
        saved_count(index, n - 1) + if index.values()[n - 1]@.len() >= 2 {
            (index.values()[n - 1]@.len() - 1) as nat
        } else {
            0nat
        }
    }
}

/// A count as a `usize`, held at `usize::MAX` beyond it.
pub open spec fn capped(n: nat) -> usize {
    if n > usize::MAX {
        usize::MAX
    } else {
        n as usize
    }
}

/// The deduplication plan of one ecosystem: its global index, the steps
/// to take, and the counts of what the steps save.
pub struct EcosystemPlan {
    pub index: StrMap<Vec<Vec<String>>>,
    pub actions: Vec<DedupAction>,
    pub deduplicated_packages: usize,
    pub duplicate_copies_saved: usize,
    pub packages_scanned: usize,
}

/// `p` is the plan for its index, with the store of `eco` under `root`.
pub open spec fn plans_index(p: EcosystemPlan, root: Seq<char>, eco: Seq<char>) -> bool {
    let n = p.index.keys().len() as int;
    &&& actions_view(p.actions@) == index_actions(root, eco, p.index, n)
    &&& p.packages_scanned == n
    &&& p.deduplicated_packages == shared_count(p.index, n)
    &&& p.duplicate_copies_saved == capped(saved_count(p.index, n))
}

fn push_copies(
    actions: &mut Vec<DedupAction>,
    base: &String,
    dirs: &Vec<String>,
    Ghost(root): Ghost<Seq<char>>,
    Ghost(eco): Ghost<Seq<char>>,
    Ghost(key): Ghost<Seq<char>>,
    link: bool,
)
    requires
        base@ == store_dir(root, eco, key),
    ensures
        actions_view(final(actions)@) == actions_view(old(actions)@) + if link {
            link_actions(root, eco, key, texts_of(dirs@))
        } else {
            copy_actions(root, eco, key, texts_of(dirs@))
        },
{
    let ghost start = actions_view(actions@);
    let ghost ds = texts_of(dirs@);
    let mut i: usize = 0;
    while i < dirs.len()
        invariant
            base@ == store_dir(root, eco, key),
            ds == texts_of(dirs@),
            i <= dirs@.len(),
            actions_view(actions@) == start + if link {
                link_actions(root, eco, key, ds.take(i as int))
            } else {
                copy_actions(root, eco, key, ds.take(i as int))
            },
        decreases dirs@.len() - i,
    {
        let d = &dirs[i];
        let to = store_entry(base.as_str(), path_file_name(d.as_str()));
        assert(to@ == stored(root, eco, key, d@));
        let a = if link {
            DedupAction::Link { store: to, target: d.clone() }
        } else {
            DedupAction::Copy { from: d.clone(), to }
        };
        let ghost prev = actions@;
        actions.push(a);
        proof {
            assert(actions_view(actions@) =~= actions_view(prev).push(a@));
            assert(ds[i as int] == d@);
            if link {
                assert(link_actions(root, eco, key, ds.take(i + 1)) =~= link_actions(root, eco, key, ds.take(i as int)).push(a@));
            } else {
                assert(copy_actions(root, eco, key, ds.take(i + 1)) =~= copy_actions(root, eco, key, ds.take(i as int)).push(a@));
            }
        }
        i = i + 1;
    }
    assert(ds.take(dirs@.len() as int) =~= ds);
}

/// Plans the deduplication of one ecosystem from its global index: for
/// each package, in key order, that at least two workspaces hold, the
/// first workspace's directories are copied into the store under
/// `root/.monodep/store/<ecosystem>` and every copy is then linked to the
/// store; the counts say how many packages were scanned, how many were
/// shared and how many copies beyond the first they had.
pub fn plan_ecosystem(root: &str, ecosystem: &str, index: StrMap<Vec<Vec<String>>>) -> (p: EcosystemPlan)
    ensures
        p.index == index,
        plans_index(p, root@, ecosystem@),
        covers_shared(p, root@, ecosystem@),
{
    let ghost r = root@;
    let ghost e = ecosystem@;
    let mut actions: Vec<DedupAction> = Vec::new();
    let mut shared: usize = 0;
    let mut saved: usize = 0;
    let n = index.len();
    let mut i: usize = 0;
    proof {
        index.lemma_lengths();
    }
    assert(actions_view(actions@) =~= index_actions(r, e, index, 0));
    while i < n
        invariant
            r == root@,
            e == ecosystem@,
            n == index.keys().len(),
            index.keys().len() == index.values().len(),
            i <= n,
            actions_view(actions@) == index_actions(r, e, index, i as int),
            shared == shared_count(index, i as int),
            shared <= i,
            saved == capped(saved_count(index, i as int)),
        decreases n - i,
    {
        let key = index.key_at(i);
        let lists = index.value_at(i);
        if lists.len() >= 2 {
            let base = store_path(root, ecosystem, key.as_str());
            let ghost lv = lists_view(*lists);
            let ghost pre = actions_view(actions@);
            push_copies(&mut actions, &base, &lists[0], Ghost(r), Ghost(e), Ghost(key@), false);
            assert(lv[0] == texts_of(lists@[0]@));
            let ghost mid = actions_view(actions@);
            let mut j: usize = 0;
            assert(lv.take(0) =~= Seq::<Seq<Seq<char>>>::empty());
            while j < lists.len()
                invariant
                    base@ == store_dir(r, e, key@),
                    lv == lists_view(*lists),
                    j <= lists@.len(),
                    actions_view(actions@) == mid + lists_links(r, e, key@, lv.take(j as int)),
                decreases lists@.len() - j,
            {
                push_copies(&mut actions, &base, &lists[j], Ghost(r), Ghost(e), Ghost(key@), true);
                assert(lv.take(j + 1).drop_last() =~= lv.take(j as int));
                assert(lv.take(j + 1).last() == texts_of(lists@[j as int]@));
                assert(actions_view(actions@) =~= mid + lists_links(r, e, key@, lv.take(j + 1)));
                j = j + 1;
            }
            assert(lv.take(lists@.len() as int) =~= lv);
            assert(actions_view(actions@) =~= pre + key_actions(r, e, key@, lv));
            shared = shared + 1;
            saved = saved.saturating_add(lists.len() - 1);
        }
        i = i + 1;
    }
    let p = EcosystemPlan {
        index,
        actions,
        deduplicated_packages: shared,
        duplicate_copies_saved: saved,
        packages_scanned: n,
    };
    proof {
        lemma_plan_covers_shared(p, r, e);
    }
    p
}

/// The packages each workspace holds in its `node_modules`.
pub open spec fn node_per_workspace(ws: Seq<WorkspaceListing>) -> Seq<Seq<Found>> {
    ws.map_values(|w: WorkspaceListing| node_found(w.node_modules))
}

/// The packages each workspace holds in its virtual environment.
pub open spec fn python_per_workspace(ws: Seq<WorkspaceListing>) -> Seq<Seq<Found>> {
    ws.map_values(|w: WorkspaceListing| python_found(w.venv))
}

/// The deduplication plan of a sync: one plan per ecosystem, and the root
/// of the store.
pub struct DedupPlan {
    pub node: EcosystemPlan,
    pub python: EcosystemPlan,
    pub store_root: String,
}

fn global_index(workspaces: &Vec<WorkspaceListing>, python: bool) -> (index: StrMap<Vec<Vec<String>>>)
    ensures
        global_indexes(
            index,
            if python {
                python_per_workspace(workspaces@)
            } else {
                node_per_workspace(workspaces@)
            },
        ),
{
    let ghost all = if python {
        python_per_workspace(workspaces@)
    } else {
        node_per_workspace(workspaces@)
    };
    let mut index: StrMap<Vec<Vec<String>>> = StrMap::new();
    let mut w: usize = 0;
    assert(all.take(0) =~= Seq::<Seq<Found>>::empty());
    assert forall|k: Seq<char>| #[trigger] index.has(k) <==> in_any(all.take(0), k) by {}
    while w < workspaces.len()
        invariant
            w <= workspaces@.len(),
            all.len() == workspaces@.len(),
            all == if python {
                python_per_workspace(workspaces@)
            } else {
                node_per_workspace(workspaces@)
            },
            global_indexes(index, all.take(w as int)),
        decreases workspaces@.len() - w,
    {
        let ws = &workspaces[w];
        let scan = if python {
            scan_python_packages(&ws.venv)
        } else {
            scan_node_packages(&ws.node_modules)
        };
        let ghost f = all[w as int];
        add_workspace(&mut index, &scan, Ghost(all.take(w as int)), Ghost(f));
        assert(all.take(w as int).push(f) =~= all.take(w + 1));
        w = w + 1;
    }
    assert(all.take(workspaces@.len() as int) =~= all);
    index
}

/// Plans the deduplication of the workspaces' installed packages under
/// `root`: the node and python packages of all workspaces are indexed by
/// key, in workspace order, and each ecosystem is planned from its index
/// (see `plan_ecosystem`).
pub fn deduplicate_workspaces(root: &str, workspaces: &Vec<WorkspaceListing>) -> (p: DedupPlan)
    ensures
        global_indexes(p.node.index, node_per_workspace(workspaces@)),
        global_indexes(p.python.index, python_per_workspace(workspaces@)),
        plans_index(p.node, root@, "node"@),
        plans_index(p.python, root@, "python"@),
        covers_shared(p.node, root@, "node"@),
        covers_shared(p.python, root@, "python"@),
        p.store_root@ == path_join(root@, ".monodep/store"@),
{
    let node_index = global_index(workspaces, false);
    let python_index = global_index(workspaces, true);
    let node = plan_ecosystem(root, "node", node_index);
    let python = plan_ecosystem(root, "python", python_index);
    DedupPlan { node, python, store_root: join(root, ".monodep/store") }
}

/// The statistics of an ecosystem once its steps ran and linked `linked`
/// files.
pub open spec fn stats_of(p: EcosystemPlan, linked: usize) -> DedupStats {
    DedupStats {
        deduplicated_packages: p.deduplicated_packages,
        duplicate_copies_saved: p.duplicate_copies_saved,
        files_hardlinked: linked,
        packages_scanned: p.packages_scanned,
    }
}

impl DedupPlan {
    /// What deduplication reports once the steps ran: each ecosystem's
    /// counts with the number of files its links replaced, and the store's
    /// root when a store exists for either ecosystem.
    pub fn result(&self, node_linked: usize, python_linked: usize, has_store: bool) -> (r: DedupResult)
        ensures
            r.node == stats_of(self.node, node_linked),
            r.python == stats_of(self.python, python_linked),
            r.store is Some <==> has_store,
            r.store matches Some(s) ==> s@ == self.store_root@,
    {
        let node = DedupStats {
            deduplicated_packages: self.node.deduplicated_packages,
            duplicate_copies_saved: self.node.duplicate_copies_saved,
            files_hardlinked: node_linked,
            packages_scanned: self.node.packages_scanned,
        };
        let python = DedupStats {
            deduplicated_packages: self.python.deduplicated_packages,
            duplicate_copies_saved: self.python.duplicate_copies_saved,
            files_hardlinked: python_linked,
            packages_scanned: self.python.packages_scanned,
        };
        DedupResult {
            node,
            python,
            store: if has_store {
                Some(self.store_root.clone())
            } else {
                None
            },
        }
    }
}


// ── Pruning the store ───────────────────────────────────────────────

/// A version directory of the store.
pub struct StoreVersion {
    pub name: String,
    pub path: String,
    pub is_dir: bool,
}

/// A package-name directory of an ecosystem's store, with the listing of
/// its versions when it could be read.
pub struct StoreName {
    pub name: String,
    pub path: String,
    pub is_dir: bool,
    pub versions: Option<Vec<StoreVersion>>,
}

/// What the store under `.monodep/store` holds: whether it exists, and the
/// listing of each ecosystem's directory when that exists and could be
/// read.
pub struct StoreListing {
    pub exists: bool,
    pub node: Option<Vec<StoreName>>,
    pub python: Option<Vec<StoreName>>,
}

/// A file-system step of pruning.
pub enum PruneAction {
    /// Remove a version directory and everything in it.
    RemoveVersion(String),
    /// Remove a package-name directory if it exists and is empty.
    RemoveIfEmpty(String),
}

pub enum PruneView {
    RemoveVersion(Seq<char>),
    RemoveIfEmpty(Seq<char>),
}

impl View for PruneAction {
    type V = PruneView;

    open spec fn view(&self) -> PruneView {
        match self {
            PruneAction::RemoveVersion(p) => PruneView::RemoveVersion(p@),
            PruneAction::RemoveIfEmpty(p) => PruneView::RemoveIfEmpty(p@),
        }
    }
}

pub open spec fn prune_view(v: Seq<PruneAction>) -> Seq<PruneView> {
    v.map_values(|a: PruneAction| a@)
}

/// The key a store directory `name/version` stands for: `+` in the name
/// becomes `/` again.
pub open spec fn prune_key(name: Seq<char>, version: Seq<char>) -> Seq<char> {
    replace_char(name, '+', '/') + "@"@ + version
}

/// The version directories of `name` that no workspace uses any more.
pub open spec fn version_removals(name: Seq<char>, vs: Seq<StoreVersion>, per_ws: Seq<Seq<Found>>) -> Seq<
    PruneView,
>
    decreases vs.len(),
{
    if vs.len() == 0 {
        Seq::empty()
    } else {
        let v = vs.last();
        version_removals(name, vs.drop_last(), per_ws) + if v.is_dir && !in_any(
            per_ws,
            prune_key(name, v.name@),
        ) {
            seq![PruneView::RemoveVersion(v.path@)]
        } else {
            Seq::empty()
        }
    }
}

/// The steps for a package-name directory whose versions could be listed:
/// the removal of its unused versions, then of itself once empty.
pub open spec fn name_steps(n: StoreName, per_ws: Seq<Seq<Found>>) -> Seq<PruneView> {
    if n.is_dir && n.versions is Some {
        version_removals(n.name@, n.versions->0@, per_ws).push(PruneView::RemoveIfEmpty(n.path@))
    } else {
        Seq::empty()
    }
}

pub open spec fn names_steps(ns: Seq<StoreName>, per_ws: Seq<Seq<Found>>) -> Seq<PruneView>
    decreases ns.len(),
{
    if ns.len() == 0 {
        Seq::empty()
    } else {
        names_steps(ns.drop_last(), per_ws) + name_steps(ns.last(), per_ws)
    }
}

pub open spec fn ecosystem_steps(names: Option<Vec<StoreName>>, per_ws: Seq<Seq<Found>>) -> Seq<PruneView> {
    match names {
        Some(v) => names_steps(v@, per_ws),
        None => Seq::empty(),
    }
}

/// The steps of pruning: nothing without a store; otherwise the node
/// store, then the python store.
pub open spec fn prune_steps(store: StoreListing, ws: Seq<WorkspaceListing>) -> Seq<PruneView> {
    if !store.exists {
        Seq::empty()
    } else {
        ecosystem_steps(store.node, node_per_workspace(ws)) + ecosystem_steps(
            store.python,
            python_per_workspace(ws),
        )
    }
}

/// How many version directories the steps remove.
pub open spec fn removal_count(s: Seq<PruneView>) -> nat
    decreases s.len(),
{
    if s.len() == 0 {
        0
    } else {
        removal_count(s.drop_last()) + if s.last() is RemoveVersion {
            1nat
        } else {
            0nat
        }
    }
}

/// The steps of pruning the store, and how many version directories they
/// remove.
pub struct PrunePlan {
    pub actions: Vec<PruneAction>,
    pub removed: usize,
}

fn push_step(actions: &mut Vec<PruneAction>, removed: &mut usize, a: PruneAction)
    requires
        *old(removed) == removal_count(prune_view(old(actions)@)),
    ensures
        prune_view(final(actions)@) == prune_view(old(actions)@).push(a@),
        *final(removed) == removal_count(prune_view(final(actions)@)),
{
    let version = match &a {
        PruneAction::RemoveVersion(_) => true,
        PruneAction::RemoveIfEmpty(_) => false,
    };
    let ghost prev = actions@;
    actions.push(a);
    assert(prune_view(actions@) =~= prune_view(prev).push(a@));
    assert(prune_view(actions@).drop_last() =~= prune_view(prev));
    if version {
        proof {
            lemma_removals_bounded(prune_view(prev));
        }
        let total = actions.len();
        assert(*removed < total);
        *removed = *removed + 1;
    }
}

proof fn lemma_removals_bounded(s: Seq<PruneView>)
    ensures
        removal_count(s) <= s.len(),
    decreases s.len(),
{
    if s.len() > 0 {
        lemma_removals_bounded(s.drop_last());
    }
}

fn push_name_steps(
    actions: &mut Vec<PruneAction>,
    removed: &mut usize,
    n: &StoreName,
    active: &StrMap<Vec<Vec<String>>>,
    Ghost(per_ws): Ghost<Seq<Seq<Found>>>,
)
    requires
        *old(removed) == removal_count(prune_view(old(actions)@)),
        global_indexes(*active, per_ws),
    ensures
        prune_view(final(actions)@) == prune_view(old(actions)@) + name_steps(*n, per_ws),
        *final(removed) == removal_count(prune_view(final(actions)@)),
{
    let ghost start = prune_view(actions@);
    if !n.is_dir {
        assert(prune_view(actions@) =~= start + name_steps(*n, per_ws));
        return;
    }
    match &n.versions {
        Some(vs) => {
            let safe = replace_char_exec(n.name.as_str(), '+', '/');
            let mut i: usize = 0;
            assert(vs@.take(0) =~= Seq::<StoreVersion>::empty());
            assert(prune_view(actions@) =~= start + version_removals(n.name@, vs@.take(0), per_ws));
            while i < vs.len()
                invariant
                    global_indexes(*active, per_ws),
                    safe@ == replace_char(n.name@, '+', '/'),
                    i <= vs@.len(),
                    prune_view(actions@) == start + version_removals(n.name@, vs@.take(i as int), per_ws),
                    *removed == removal_count(prune_view(actions@)),
                decreases vs@.len() - i,
            {
                let v = &vs[i];
                assert(vs@.take(i + 1).drop_last() =~= vs@.take(i as int));
                assert(vs@.take(i + 1).last() == *v);
                if v.is_dir {
                    let key = concat3(safe.as_str(), "@", v.name.as_str());
                    assert(key@ == prune_key(n.name@, v.name@));
                    if !active.contains_key(key.as_str()) {
                        push_step(actions, removed, PruneAction::RemoveVersion(v.path.clone()));
                    }
                }
                assert(prune_view(actions@) =~= start + version_removals(n.name@, vs@.take(i + 1), per_ws));
                i = i + 1;
            }
            assert(vs@.take(vs@.len() as int) =~= vs@);
            push_step(actions, removed, PruneAction::RemoveIfEmpty(n.path.clone()));
            assert(prune_view(actions@) =~= start + name_steps(*n, per_ws));
        },
        None => {
            assert(prune_view(actions@) =~= start + name_steps(*n, per_ws));
        },
    }
}

fn push_ecosystem_steps(
    actions: &mut Vec<PruneAction>,
    removed: &mut usize,
    names: &Option<Vec<StoreName>>,
    active: &StrMap<Vec<Vec<String>>>,
    Ghost(per_ws): Ghost<Seq<Seq<Found>>>,
)
    requires
        *old(removed) == removal_count(prune_view(old(actions)@)),
        global_indexes(*active, per_ws),
    ensures
        prune_view(final(actions)@) == prune_view(old(actions)@) + ecosystem_steps(*names, per_ws),
        *final(removed) == removal_count(prune_view(final(actions)@)),
{
    let ghost start = prune_view(actions@);
    match names {
        Some(ns) => {
            let mut i: usize = 0;
            assert(ns@.take(0) =~= Seq::<StoreName>::empty());
            assert(prune_view(actions@) =~= start + names_steps(ns@.take(0), per_ws));
            while i < ns.len()
                invariant
                    global_indexes(*active, per_ws),
                    i <= ns@.len(),
                    prune_view(actions@) == start + names_steps(ns@.take(i as int), per_ws),
                    *removed == removal_count(prune_view(actions@)),
                decreases ns@.len() - i,
            {
                assert(ns@.take(i + 1).drop_last() =~= ns@.take(i as int));
                assert(ns@.take(i + 1).last() == ns@[i as int]);
                push_name_steps(actions, removed, &ns[i], active, Ghost(per_ws));
                assert(prune_view(actions@) =~= start + names_steps(ns@.take(i + 1), per_ws));
                i = i + 1;
            }
            assert(ns@.take(ns@.len() as int) =~= ns@);
        },
        None => {
            assert(prune_view(actions@) =~= start + ecosystem_steps(*names, per_ws));
        },
    }
}

/// Plans the pruning of the store: every version directory whose key no
/// workspace holds any more is removed, then its package-name directory
/// if that is left empty; `removed` counts the version directories.
pub fn prune_store(store: &StoreListing, workspaces: &Vec<WorkspaceListing>) -> (p: PrunePlan)
    ensures
        prune_view(p.actions@) == prune_steps(*store, workspaces@),
        p.removed == removal_count(prune_view(p.actions@)),
        forall|path: Seq<char>|
            #[trigger] prune_view(p.actions@).contains(PruneView::RemoveVersion(path)) <==> store.exists && (
            unused_version(store.node, node_per_workspace(workspaces@), path) || unused_version(
                store.python,
                python_per_workspace(workspaces@),
                path,
            )),
{
    proof {
        lemma_prune_removes_exactly_unused(*store, workspaces@);
    }
    let mut actions: Vec<PruneAction> = Vec::new();
    let mut removed: usize = 0;
    assert(prune_view(actions@) =~= Seq::<PruneView>::empty());
    if !store.exists {
        return PrunePlan { actions, removed };
    }
    let active_node = global_index(workspaces, false);
    let active_python = global_index(workspaces, true);
    push_ecosystem_steps(&mut actions, &mut removed, &store.node, &active_node, Ghost(node_per_workspace(workspaces@)));
    push_ecosystem_steps(&mut actions, &mut removed, &store.python, &active_python, Ghost(python_per_workspace(workspaces@)));
    assert(prune_view(actions@) =~= prune_steps(*store, workspaces@));
    PrunePlan { actions, removed }
}


/// `path` is a version directory that `ns` lists under a package-name
/// directory whose versions could be read, and no workspace holds the key
/// that its name and version stand for.
pub open spec fn unused_in(ns: Seq<StoreName>, per_ws: Seq<Seq<Found>>, path: Seq<char>) -> bool {
    exists|i: int, j: int|
        #![trigger ns[i].versions->0@[j]]
        0 <= i < ns.len() && ns[i].is_dir && ns[i].versions is Some && 0 <= j < ns[i].versions->0@.len()
            && ns[i].versions->0@[j].is_dir && ns[i].versions->0@[j].path@ == path && !in_any(
            per_ws,
            prune_key(ns[i].name@, ns[i].versions->0@[j].name@),
        )
}

pub open spec fn unused_version(names: Option<Vec<StoreName>>, per_ws: Seq<Seq<Found>>, path: Seq<char>) -> bool {
    names is Some && unused_in(names->0@, per_ws, path)
}

proof fn lemma_concat_contains<A>(a: Seq<A>, b: Seq<A>, x: A)
    ensures
        (a + b).contains(x) <==> a.contains(x) || b.contains(x),
{
    if (a + b).contains(x) {
        let k = choose|k: int| 0 <= k < (a + b).len() && (a + b)[k] == x;
        if k < a.len() {
            assert(a[k] == x);
        } else {
            assert(b[k - a.len()] == x);
        }
    }
    if a.contains(x) {
        let k = choose|k: int| 0 <= k < a.len() && a[k] == x;
        assert((a + b)[k] == x);
    }
    if b.contains(x) {
        let k = choose|k: int| 0 <= k < b.len() && b[k] == x;
        assert((a + b)[a.len() + k] == x);
    }
}

proof fn lemma_version_removals_contains(name: Seq<char>, vs: Seq<StoreVersion>, per_ws: Seq<Seq<Found>>, path: Seq<char>)
    ensures
        version_removals(name, vs, per_ws).contains(PruneView::RemoveVersion(path)) <==> exists|j: int|
            0 <= j < vs.len() && (#[trigger] vs[j]).is_dir && vs[j].path@ == path && !in_any(
                per_ws,
                prune_key(name, vs[j].name@),
            ),
        !version_removals(name, vs, per_ws).contains(PruneView::RemoveIfEmpty(path)),
    decreases vs.len(),
{
    if vs.len() > 0 {
        let pre = vs.drop_last();
        let v = vs.last();
        lemma_version_removals_contains(name, pre, per_ws, path);
        let tail = if v.is_dir && !in_any(per_ws, prune_key(name, v.name@)) {
            seq![PruneView::RemoveVersion(v.path@)]
        } else {
            Seq::empty()
        };
        lemma_concat_contains(version_removals(name, pre, per_ws), tail, PruneView::RemoveVersion(path));
        lemma_concat_contains(version_removals(name, pre, per_ws), tail, PruneView::RemoveIfEmpty(path));
        if tail.contains(PruneView::RemoveIfEmpty(path)) {
            assert(tail[0] == PruneView::RemoveIfEmpty(path));
        }
        if exists|j: int|
            0 <= j < vs.len() && (#[trigger] vs[j]).is_dir && vs[j].path@ == path && !in_any(
                per_ws,
                prune_key(name, vs[j].name@),
            ) {
            let j = choose|j: int|
                0 <= j < vs.len() && (#[trigger] vs[j]).is_dir && vs[j].path@ == path && !in_any(
                    per_ws,
                    prune_key(name, vs[j].name@),
                );
            if j < pre.len() {
                assert(pre[j] == vs[j]);
            } else {
                assert(vs[j] == v);
                assert(tail[0] == PruneView::RemoveVersion(path));
            }
        }
        if version_removals(name, pre, per_ws).contains(PruneView::RemoveVersion(path)) {
            let j = choose|j: int|
                0 <= j < pre.len() && (#[trigger] pre[j]).is_dir && pre[j].path@ == path && !in_any(
                    per_ws,
                    prune_key(name, pre[j].name@),
                );
            assert(vs[j] == pre[j]);
        }
        if tail.contains(PruneView::RemoveVersion(path)) {
            assert(tail[0] == PruneView::RemoveVersion(path));
            assert(vs[vs.len() - 1] == v);
        }
    }
}

proof fn lemma_names_steps_contains(ns: Seq<StoreName>, per_ws: Seq<Seq<Found>>, path: Seq<char>)
    ensures
        names_steps(ns, per_ws).contains(PruneView::RemoveVersion(path)) <==> unused_in(ns, per_ws, path),
    decreases ns.len(),
{
    if ns.len() > 0 {
        let pre = ns.drop_last();
        let n = ns.last();
        lemma_names_steps_contains(pre, per_ws, path);
        lemma_concat_contains(names_steps(pre, per_ws), name_steps(n, per_ws), PruneView::RemoveVersion(path));
        let nst = name_steps(n, per_ws);
        if n.is_dir && n.versions is Some {
            let vs = n.versions->0@;
            let vr = version_removals(n.name@, vs, per_ws);
            lemma_version_removals_contains(n.name@, vs, per_ws, path);
            lemma_concat_contains(vr, seq![PruneView::RemoveIfEmpty(n.path@)], PruneView::RemoveVersion(path));
            assert(nst == vr + seq![PruneView::RemoveIfEmpty(n.path@)]);
            if nst.contains(PruneView::RemoveVersion(path)) {
                if !vr.contains(PruneView::RemoveVersion(path)) {
                    assert(seq![PruneView::RemoveIfEmpty(n.path@)].contains(PruneView::RemoveVersion(path)));
                    assert(false);
                }
                let j = choose|j: int|
                    0 <= j < vs.len() && (#[trigger] vs[j]).is_dir && vs[j].path@ == path && !in_any(
                        per_ws,
                        prune_key(n.name@, vs[j].name@),
                    );
                assert(ns[ns.len() - 1] == n);
                assert(ns[ns.len() - 1].versions->0@[j] == vs[j]);
            }
        }
        if unused_in(ns, per_ws, path) {
            let (i, j) = choose|i: int, j: int|
                #![trigger ns[i].versions->0@[j]]
                0 <= i < ns.len() && ns[i].is_dir && ns[i].versions is Some && 0 <= j < ns[i].versions->0@.len()
                    && ns[i].versions->0@[j].is_dir && ns[i].versions->0@[j].path@ == path && !in_any(
                    per_ws,
                    prune_key(ns[i].name@, ns[i].versions->0@[j].name@),
                );
            if i < pre.len() {
                assert(pre[i] == ns[i]);
                assert(pre[i].versions->0@[j] == ns[i].versions->0@[j]);
            } else {
                assert(ns[i] == n);
                let vs = n.versions->0@;
                let vr = version_removals(n.name@, vs, per_ws);
                lemma_version_removals_contains(n.name@, vs, per_ws, path);
                assert(vs[j] == ns[i].versions->0@[j]);
                lemma_concat_contains(vr, seq![PruneView::RemoveIfEmpty(n.path@)], PruneView::RemoveVersion(path));
            }
        }
        if unused_in(pre, per_ws, path) {
            let (i, j) = choose|i: int, j: int|
                #![trigger pre[i].versions->0@[j]]
                0 <= i < pre.len() && pre[i].is_dir && pre[i].versions is Some && 0 <= j < pre[i].versions->0@.len()
                    && pre[i].versions->0@[j].is_dir && pre[i].versions->0@[j].path@ == path && !in_any(
                    per_ws,
                    prune_key(pre[i].name@, pre[i].versions->0@[j].name@),
                );
            assert(ns[i] == pre[i]);
            assert(ns[i].versions->0@[j] == pre[i].versions->0@[j]);
        }
    }
}

/// Pruning removes exactly the version directories that no workspace uses,
/// in both ecosystems' stores: a version directory listed under a readable
/// package-name directory of the node or the python store is removed if and
/// only if no workspace holds the key its name and version stand for; and
/// nothing happens without a store.
pub proof fn lemma_prune_removes_exactly_unused(store: StoreListing, ws: Seq<WorkspaceListing>)
    ensures
        forall|path: Seq<char>|
            #[trigger] prune_steps(store, ws).contains(PruneView::RemoveVersion(path)) <==> store.exists && (
            unused_version(store.node, node_per_workspace(ws), path) || unused_version(
                store.python,
                python_per_workspace(ws),
                path,
            )),
        !store.exists ==> prune_steps(store, ws).len() == 0,
{
    assert forall|path: Seq<char>|
        #[trigger] prune_steps(store, ws).contains(PruneView::RemoveVersion(path)) <==> store.exists && (
        unused_version(store.node, node_per_workspace(ws), path) || unused_version(
            store.python,
            python_per_workspace(ws),
            path,
        )) by {
        if store.exists {
            let a = ecosystem_steps(store.node, node_per_workspace(ws));
            let b = ecosystem_steps(store.python, python_per_workspace(ws));
            lemma_concat_contains(a, b, PruneView::RemoveVersion(path));
            if store.node is Some {
                lemma_names_steps_contains(store.node->0@, node_per_workspace(ws), path);
            }
            if store.python is Some {
                lemma_names_steps_contains(store.python->0@, python_per_workspace(ws), path);
            }
        }
    }
}

/// The store lists version directory `version` under a package-name
/// directory `name` whose versions could be read.
pub open spec fn listed_version(names: Option<Vec<StoreName>>, name: Seq<char>, version: Seq<char>) -> bool {
    &&& names is Some
    &&& exists|i: int, j: int|
        #![trigger names->0@[i].versions->0@[j]]
        0 <= i < names->0@.len() && names->0@[i].is_dir && names->0@[i].versions is Some && 0 <= j
            < names->0@[i].versions->0@.len() && names->0@[i].versions->0@[j].is_dir
            && names->0@[i].name@ == name && names->0@[i].versions->0@[j].name@ == version
}

/// Every version directory that `after` lists was listed the same way in
/// `before` and kept when `before` was pruned against `per_ws`.
pub open spec fn ecosystem_pruned_from(
    after: Option<Vec<StoreName>>,
    before: Option<Vec<StoreName>>,
    per_ws: Seq<Seq<Found>>,
) -> bool {
    forall|name: Seq<char>, version: Seq<char>|
        #[trigger] listed_version(after, name, version) ==> listed_version(before, name, version)
            && in_any(per_ws, prune_key(name, version))
}

/// The store lists a package-name directory `name` whose versions could be
/// read.
pub open spec fn readable_name(names: Option<Vec<StoreName>>, name: Seq<char>) -> bool {
    &&& names is Some
    &&& exists|i: int|
        #![trigger names->0@[i]]
        0 <= i < names->0@.len() && names->0@[i].is_dir && names->0@[i].versions is Some
            && names->0@[i].name@ == name
}

/// Each package-name directory that `after` lists with readable versions
/// was listed so in `before` too, and is not empty: pruning `before`
/// removed the ones it left empty.
pub open spec fn emptied_names_gone(after: Option<Vec<StoreName>>, before: Option<Vec<StoreName>>) -> bool {
    after is Some ==> forall|i: int|
        #![trigger after->0@[i]]
        0 <= i < after->0@.len() && after->0@[i].is_dir && after->0@[i].versions is Some
            ==> readable_name(before, after->0@[i].name@) && after->0@[i].versions->0@.len() > 0
}

/// `after` is the store as it is once the steps of pruning `before` against
/// the workspaces `ws` ran and nothing else changed: the same store, whose
/// version directories are those of `before` that the pruning kept, and
/// whose package-name directories are those it did not leave empty.
pub open spec fn pruned_from(after: StoreListing, before: StoreListing, ws: Seq<WorkspaceListing>) -> bool {
    &&& after.exists == before.exists
    &&& ecosystem_pruned_from(after.node, before.node, node_per_workspace(ws))
    &&& ecosystem_pruned_from(after.python, before.python, python_per_workspace(ws))
    &&& emptied_names_gone(after.node, before.node)
    &&& emptied_names_gone(after.python, before.python)
}

/// `path` is a package-name directory that `names` lists as readable and
/// not empty.
pub open spec fn nonempty_name_dir(names: Option<Vec<StoreName>>, path: Seq<char>) -> bool {
    &&& names is Some
    &&& exists|i: int|
        #![trigger names->0@[i]]
        0 <= i < names->0@.len() && names->0@[i].is_dir && names->0@[i].versions is Some
            && names->0@[i].versions->0@.len() > 0 && names->0@[i].path@ == path
}

proof fn lemma_version_removals_none(name: Seq<char>, vs: Seq<StoreVersion>, per_ws: Seq<Seq<Found>>)
    requires
        forall|j: int| 0 <= j < vs.len() && (#[trigger] vs[j]).is_dir ==> in_any(per_ws, prune_key(name, vs[j].name@)),
    ensures
        version_removals(name, vs, per_ws) == Seq::<PruneView>::empty(),
    decreases vs.len(),
{
    if vs.len() > 0 {
        let p = vs.drop_last();
        assert forall|j: int| 0 <= j < p.len() && (#[trigger] p[j]).is_dir implies in_any(
            per_ws,
            prune_key(name, p[j].name@),
        ) by {
            assert(p[j] == vs[j]);
        }
        assert(vs[vs.len() - 1] == vs.last());
        lemma_version_removals_none(name, p, per_ws);
    }
}

proof fn lemma_names_steps_keep(ns: Seq<StoreName>, per_ws: Seq<Seq<Found>>)
    requires
        forall|i: int, j: int|
            0 <= i < ns.len() && ns[i].is_dir && ns[i].versions is Some && 0 <= j < ns[i].versions->0@.len()
                && (#[trigger] ns[i].versions->0@[j]).is_dir ==> in_any(
                per_ws,
                prune_key(ns[i].name@, ns[i].versions->0@[j].name@),
            ),
    ensures
        forall|k: int|
            0 <= k < names_steps(ns, per_ws).len() ==> exists|i: int|
                0 <= i < ns.len() && ns[i].is_dir && ns[i].versions is Some && #[trigger] names_steps(
                    ns,
                    per_ws,
                )[k] == PruneView::RemoveIfEmpty(ns[i].path@),
    decreases ns.len(),
{
    if ns.len() > 0 {
        let p = ns.drop_last();
        assert forall|i: int, j: int|
            0 <= i < p.len() && p[i].is_dir && p[i].versions is Some && 0 <= j < p[i].versions->0@.len()
                && (#[trigger] p[i].versions->0@[j]).is_dir implies in_any(
                per_ws,
                prune_key(p[i].name@, p[i].versions->0@[j].name@),
            ) by {
            assert(p[i] == ns[i]);
        }
        lemma_names_steps_keep(p, per_ws);
        let n = ns.last();
        assert(ns[ns.len() - 1] == n);
        if n.is_dir && n.versions is Some {
            let vs = n.versions->0@;
            assert forall|j: int| 0 <= j < vs.len() && (#[trigger] vs[j]).is_dir implies in_any(
                per_ws,
                prune_key(n.name@, vs[j].name@),
            ) by {
                assert(ns[ns.len() - 1].versions->0@[j] == vs[j]);
            }
            lemma_version_removals_none(n.name@, vs, per_ws);
        }
        let a = names_steps(p, per_ws);
        let b = name_steps(n, per_ws);
        assert forall|k: int| 0 <= k < (a + b).len() implies exists|i: int|
            0 <= i < ns.len() && ns[i].is_dir && ns[i].versions is Some && #[trigger] (a + b)[k]
                == PruneView::RemoveIfEmpty(ns[i].path@) by {
            if k < a.len() {
                assert((a + b)[k] == a[k]);
                let i = choose|i: int|
                    0 <= i < p.len() && p[i].is_dir && p[i].versions is Some && #[trigger] a[k]
                        == PruneView::RemoveIfEmpty(p[i].path@);
                assert(ns[i] == p[i]);
            } else {
                assert((a + b)[k] == b[k - a.len()]);
                assert(ns[ns.len() - 1] == n);
            }
        }
    }
}

proof fn lemma_ecosystem_steps_keep(after: Option<Vec<StoreName>>, before: Option<Vec<StoreName>>, per_ws: Seq<Seq<Found>>)
    requires
        ecosystem_pruned_from(after, before, per_ws),
        emptied_names_gone(after, before),
    ensures
        forall|k: int|
            0 <= k < ecosystem_steps(after, per_ws).len() ==> (#[trigger] ecosystem_steps(after, per_ws)[k]
                matches PruneView::RemoveIfEmpty(p) && nonempty_name_dir(after, p)),
{
    if after is Some {
        let ns = after->0@;
        assert forall|i: int, j: int|
            0 <= i < ns.len() && ns[i].is_dir && ns[i].versions is Some && 0 <= j < ns[i].versions->0@.len()
                && (#[trigger] ns[i].versions->0@[j]).is_dir implies in_any(
                per_ws,
                prune_key(ns[i].name@, ns[i].versions->0@[j].name@),
            ) by {
            assert(listed_version(after, ns[i].name@, ns[i].versions->0@[j].name@));
        }
        lemma_names_steps_keep(ns, per_ws);
        let st = names_steps(ns, per_ws);
        assert forall|k: int| 0 <= k < st.len() implies (#[trigger] st[k] matches PruneView::RemoveIfEmpty(p)
            && nonempty_name_dir(after, p)) by {
            let i = choose|i: int|
                0 <= i < ns.len() && ns[i].is_dir && ns[i].versions is Some && #[trigger] st[k]
                    == PruneView::RemoveIfEmpty(ns[i].path@);
            assert(after->0@[i] == ns[i]);
        }
    }
}

proof fn lemma_no_removals(s: Seq<PruneView>)
    requires
        forall|k: int| 0 <= k < s.len() ==> #[trigger] s[k] is RemoveIfEmpty,
    ensures
        removal_count(s) == 0,
    decreases s.len(),
{
    if s.len() > 0 {
        let p = s.drop_last();
        assert forall|k: int| 0 <= k < p.len() implies #[trigger] p[k] is RemoveIfEmpty by {
            assert(p[k] == s[k]);
        }
        assert(s[s.len() - 1] == s.last());
        lemma_no_removals(p);
    }
}

/// Pruning twice removes nothing the second time: once the steps of
/// pruning a store ran, and nothing else changed, pruning it again against
/// the same workspaces removes no version directory, and each of its steps
/// only looks at a package-name directory that is not empty, so it removes
/// nothing either.
pub proof fn lemma_prune_twice_removes_nothing(
    after: StoreListing,
    before: StoreListing,
    ws: Seq<WorkspaceListing>,
)
    requires
        pruned_from(after, before, ws),
    ensures
        removal_count(prune_steps(after, ws)) == 0,
        forall|k: int|
            0 <= k < prune_steps(after, ws).len() ==> (#[trigger] prune_steps(after, ws)[k]
                matches PruneView::RemoveIfEmpty(p) && (nonempty_name_dir(after.node, p)
                || nonempty_name_dir(after.python, p))),
{
    let a = ecosystem_steps(after.node, node_per_workspace(ws));
    let b = ecosystem_steps(after.python, python_per_workspace(ws));
    lemma_ecosystem_steps_keep(after.node, before.node, node_per_workspace(ws));
    lemma_ecosystem_steps_keep(after.python, before.python, python_per_workspace(ws));
    let st = prune_steps(after, ws);
    if after.exists {
        assert(st == a + b);
        assert forall|k: int| 0 <= k < st.len() implies (#[trigger] st[k] matches PruneView::RemoveIfEmpty(p)
            && (nonempty_name_dir(after.node, p) || nonempty_name_dir(after.python, p))) by {
            if k < a.len() {
                assert((a + b)[k] == a[k]);
            } else {
                assert((a + b)[k] == b[k - a.len()]);
            }
        }
    }
    assert forall|k: int| 0 <= k < st.len() implies #[trigger] st[k] is RemoveIfEmpty by {
        assert(st[k] is RemoveIfEmpty);
    }
    lemma_no_removals(st);
}

// ── What deduplication and pruning promise together ─────────────────

/// A package version kept in the store is recognised as the same key when
/// the store is pruned: the name and version directories `store_dir` makes
/// for `key` (the name with `/` written as `+`, then the version) read
/// back as `key`, provided the key has an `@` and its name holds no `+`.
pub proof fn lemma_store_key_roundtrip(root: Seq<char>, ecosystem: Seq<char>, key: Seq<char>)
    requires
        last_index_of(key, '@') is Some,
        !key.subrange(0, last_index_of(key, '@')->0).contains('+'),
    ensures
        ({
            let i = last_index_of(key, '@')->0;
            let safe = replace_char(key.subrange(0, i), '/', '+');
            let version = key.subrange(i + 1, key.len() as int);
            &&& store_dir(root, ecosystem, key) == path_join(
                path_join(path_join(path_join(root, ".monodep/store"@), ecosystem), safe),
                version,
            )
            &&& prune_key(safe, version) == key
        }),
{
    lemma_last_index_of(key, '@');
    reveal_strlit("@");
    let i = last_index_of(key, '@')->0;
    let name = key.subrange(0, i);
    let safe = replace_char(name, '/', '+');
    let version = key.subrange(i + 1, key.len() as int);
    assert(replace_char(safe, '+', '/') =~= name) by {
        assert forall|j: int| 0 <= j < name.len() implies replace_char(safe, '+', '/')[j] == name[j] by {
            assert(name[j] != '+') by {
                if name[j] == '+' {
                    assert(name.contains('+'));
                }
            }
        }
    }
    assert(name + "@"@ + version =~= key);
}

/// A step belongs to package `key` with directory lists `lists`: a copy
/// takes a directory of the first list into the key's store directory, a
/// link ties a directory of some list to its copy in the store.
pub open spec fn step_of(
    root: Seq<char>,
    eco: Seq<char>,
    key: Seq<char>,
    lists: Seq<Seq<Seq<char>>>,
    a: ActionView,
) -> bool {
    match a {
        ActionView::Copy(from, to) => lists[0].contains(from) && to == stored(root, eco, key, from),
        ActionView::Link(store, target) => (exists|l: int| 0 <= l < lists.len() && #[trigger] lists[l].contains(target))
            && store == stored(root, eco, key, target),
    }
}

/// A step belongs to one of the first `n` packages of the index that at
/// least two workspaces hold.
pub open spec fn step_for_shared(
    index: StrMap<Vec<Vec<String>>>,
    root: Seq<char>,
    eco: Seq<char>,
    n: int,
    a: ActionView,
) -> bool {
    exists|i: int|
        0 <= i < n && index.values()[i]@.len() >= 2 && #[trigger] step_of(
            root,
            eco,
            index.keys()[i],
            lists_view(index.values()[i]),
            a,
        )
}

proof fn lemma_lists_links(root: Seq<char>, eco: Seq<char>, key: Seq<char>, lists: Seq<Seq<Seq<char>>>)
    ensures
        forall|j: int|
            0 <= j < lists_links(root, eco, key, lists).len() ==> step_of(
                root,
                eco,
                key,
                lists,
                #[trigger] lists_links(root, eco, key, lists)[j],
            ) && lists_links(root, eco, key, lists)[j] is Link,
    decreases lists.len(),
{
    if lists.len() > 0 {
        let pre = lists.drop_last();
        lemma_lists_links(root, eco, key, pre);
        let a = lists_links(root, eco, key, pre);
        let b = link_actions(root, eco, key, lists.last());
        assert forall|j: int| 0 <= j < (a + b).len() implies step_of(root, eco, key, lists, #[trigger] (a
            + b)[j]) && (a + b)[j] is Link by {
            if j < a.len() {
                assert((a + b)[j] == a[j]);
                assert(step_of(root, eco, key, pre, a[j]));
                let t = a[j]->Link_1;
                let l = choose|l: int| 0 <= l < pre.len() && #[trigger] pre[l].contains(t);
                assert(lists[l] == pre[l]);
            } else {
                let m = j - a.len();
                assert((a + b)[j] == b[m]);
                let t = lists.last()[m];
                assert(lists.last().contains(t));
                assert(lists[lists.len() - 1] == lists.last());
            }
        }
    }
}

proof fn lemma_index_actions(index: StrMap<Vec<Vec<String>>>, root: Seq<char>, eco: Seq<char>, n: int)
    requires
        0 <= n <= index.keys().len(),
        index.keys().len() == index.values().len(),
    ensures
        forall|j: int|
            0 <= j < index_actions(root, eco, index, n).len() ==> step_for_shared(
                index,
                root,
                eco,
                n,
                #[trigger] index_actions(root, eco, index, n)[j],
            ),
    decreases n,
{
    if n > 0 {
        lemma_index_actions(index, root, eco, n - 1);
        let k = index.keys()[n - 1];
        let lists = lists_view(index.values()[n - 1]);
        let a = index_actions(root, eco, index, n - 1);
        let b = key_actions(root, eco, k, lists);
        lemma_lists_links(root, eco, k, lists);
        assert forall|j: int| 0 <= j < (a + b).len() implies step_for_shared(index, root, eco, n, #[trigger] (a
            + b)[j]) by {
            if j < a.len() {
                assert((a + b)[j] == a[j]);
                assert(step_for_shared(index, root, eco, n - 1, a[j]));
                let i = choose|i: int|
                    0 <= i < n - 1 && index.values()[i]@.len() >= 2 && #[trigger] step_of(
                        root,
                        eco,
                        index.keys()[i],
                        lists_view(index.values()[i]),
                        a[j],
                    );
                assert(step_of(root, eco, index.keys()[i], lists_view(index.values()[i]), (a + b)[j]));
            } else {
                let m = j - a.len();
                assert((a + b)[j] == b[m]);
                assert(lists.len() == index.values()[n - 1]@.len());
                let c = copy_actions(root, eco, k, lists[0]);
                let l = lists_links(root, eco, k, lists);
                if m < c.len() {
                    assert(b[m] == c[m]);
                    assert(lists[0].contains(lists[0][m]));
                } else {
                    assert(b[m] == l[m - c.len()]);
                }
                assert(step_of(root, eco, k, lists, b[m]));
            }
        }
    }
}

/// Every step of a deduplication plan is for a package that at least two
/// workspaces hold: a copy takes one of the package's directories in the
/// first workspace that holds it into the package's store directory, and a
/// link ties one of the package's directories to its own copy in the store.
pub proof fn lemma_plan_steps_shared(p: EcosystemPlan, root: Seq<char>, eco: Seq<char>)
    requires
        plans_index(p, root, eco),
    ensures
        forall|j: int|
            0 <= j < p.actions@.len() ==> step_for_shared(
                p.index,
                root,
                eco,
                p.index.keys().len() as int,
                (#[trigger] p.actions@[j])@,
            ),
{
    p.index.lemma_lengths();
    lemma_index_actions(p.index, root, eco, p.index.keys().len() as int);
    assert forall|j: int| 0 <= j < p.actions@.len() implies step_for_shared(
        p.index,
        root,
        eco,
        p.index.keys().len() as int,
        (#[trigger] p.actions@[j])@,
    ) by {
        assert(actions_view(p.actions@)[j] == p.actions@[j]@);
    }
}


proof fn lemma_lists_links_contains(root: Seq<char>, eco: Seq<char>, key: Seq<char>, lists: Seq<Seq<Seq<char>>>, l: int, j: int)
    requires
        0 <= l < lists.len(),
        0 <= j < lists[l].len(),
    ensures
        lists_links(root, eco, key, lists).contains(
            ActionView::Link(stored(root, eco, key, lists[l][j]), lists[l][j]),
        ),
    decreases lists.len(),
{
    let pre = lists.drop_last();
    let a = lists_links(root, eco, key, pre);
    let b = link_actions(root, eco, key, lists.last());
    if l < lists.len() - 1 {
        assert(pre[l] == lists[l]);
        lemma_lists_links_contains(root, eco, key, pre, l, j);
        let x = choose|x: int| 0 <= x < a.len() && a[x] == ActionView::Link(stored(root, eco, key, lists[l][j]), lists[l][j]);
        assert((a + b)[x] == a[x]);
    } else {
        assert(lists.last() == lists[l]);
        assert((a + b)[a.len() + j] == b[j]);
    }
}

proof fn lemma_index_actions_contains(
    index: StrMap<Vec<Vec<String>>>,
    root: Seq<char>,
    eco: Seq<char>,
    n: int,
    m: int,
    a: ActionView,
)
    requires
        0 <= m < n <= index.keys().len(),
        key_actions(root, eco, index.keys()[m], lists_view(index.values()[m])).contains(a),
    ensures
        index_actions(root, eco, index, n).contains(a),
    decreases n,
{
    let pre = index_actions(root, eco, index, n - 1);
    let b = key_actions(root, eco, index.keys()[n - 1], lists_view(index.values()[n - 1]));
    if m < n - 1 {
        lemma_index_actions_contains(index, root, eco, n - 1, m, a);
        let x = choose|x: int| 0 <= x < pre.len() && pre[x] == a;
        assert((pre + b)[x] == pre[x]);
    } else {
        let x = choose|x: int| 0 <= x < b.len() && b[x] == a;
        assert((pre + b)[pre.len() + x] == b[x]);
    }
}

/// Every directory of a package that at least two workspaces hold is taken
/// care of: each directory the first of them holds it in is copied into
/// the package's store directory, and each directory any of them holds it
/// in is linked to its copy in the store.
pub open spec fn covers_shared(p: EcosystemPlan, root: Seq<char>, eco: Seq<char>) -> bool {
    &&& forall|i: int, j: int|
            #![trigger p.index.values()[i]@[0]@[j]]
            0 <= i < p.index.keys().len() && p.index.values()[i]@.len() >= 2 && 0 <= j
                < p.index.values()[i]@[0]@.len() ==> actions_view(p.actions@).contains(
                ActionView::Copy(
                    p.index.values()[i]@[0]@[j]@,
                    stored(root, eco, p.index.keys()[i], p.index.values()[i]@[0]@[j]@),
                ),
            )
    &&& forall|i: int, l: int, j: int|
            #![trigger p.index.values()[i]@[l]@[j]]
            0 <= i < p.index.keys().len() && p.index.values()[i]@.len() >= 2 && 0 <= l
                < p.index.values()[i]@.len() && 0 <= j < p.index.values()[i]@[l]@.len()
                ==> actions_view(p.actions@).contains(
                ActionView::Link(
                    stored(root, eco, p.index.keys()[i], p.index.values()[i]@[l]@[j]@),
                    p.index.values()[i]@[l]@[j]@,
                ),
            )
}

/// Deduplication leaves out no directory of a shared package (see
/// `covers_shared`).
pub proof fn lemma_plan_covers_shared(p: EcosystemPlan, root: Seq<char>, eco: Seq<char>)
    requires
        plans_index(p, root, eco),
    ensures
        covers_shared(p, root, eco),
{
    let index = p.index;
    let n = index.keys().len() as int;
    index.lemma_lengths();
    assert forall|i: int, j: int|
        #![trigger p.index.values()[i]@[0]@[j]]
        0 <= i < n && index.values()[i]@.len() >= 2 && 0 <= j < index.values()[i]@[0]@.len()
            implies actions_view(p.actions@).contains(
            ActionView::Copy(
                index.values()[i]@[0]@[j]@,
                stored(root, eco, index.keys()[i], index.values()[i]@[0]@[j]@),
            ),
        ) by {
        let k = index.keys()[i];
        let lists = lists_view(index.values()[i]);
        let d = index.values()[i]@[0]@[j]@;
        assert(lists[0] == texts_of(index.values()[i]@[0]@));
        assert(lists[0][j] == d);
        let c = copy_actions(root, eco, k, lists[0]);
        let l = lists_links(root, eco, k, lists);
        assert((c + l)[j] == c[j]);
        assert(key_actions(root, eco, k, lists).contains(ActionView::Copy(d, stored(root, eco, k, d))));
        lemma_index_actions_contains(index, root, eco, n, i, ActionView::Copy(d, stored(root, eco, k, d)));
    }
    assert forall|i: int, l: int, j: int|
        #![trigger p.index.values()[i]@[l]@[j]]
        0 <= i < n && index.values()[i]@.len() >= 2 && 0 <= l < index.values()[i]@.len() && 0 <= j
            < index.values()[i]@[l]@.len() implies actions_view(p.actions@).contains(
            ActionView::Link(
                stored(root, eco, index.keys()[i], index.values()[i]@[l]@[j]@),
                index.values()[i]@[l]@[j]@,
            ),
        ) by {
        let k = index.keys()[i];
        let lists = lists_view(index.values()[i]);
        let d = index.values()[i]@[l]@[j]@;
        assert(lists[l] == texts_of(index.values()[i]@[l]@));
        assert(lists[l][j] == d);
        lemma_lists_links_contains(root, eco, k, lists, l, j);
        let c = copy_actions(root, eco, k, lists[0]);
        let ll = lists_links(root, eco, k, lists);
        let a = ActionView::Link(stored(root, eco, k, d), d);
        let x = choose|x: int| 0 <= x < ll.len() && ll[x] == a;
        assert((c + ll)[c.len() + x] == ll[x]);
        assert(key_actions(root, eco, k, lists).contains(a));
        lemma_index_actions_contains(index, root, eco, n, i, a);
    }
}

} // verus!
