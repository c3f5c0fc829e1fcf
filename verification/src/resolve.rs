//! CommonJS-style module resolution.
//!
//! The rules that `require(path)` follows (relative and absolute paths,
//! `.js`/`.json` completion, a directory's `index`, `package.json`'s `main`,
//! the `node_modules` search up the ancestors) are written against the
//! [`FileSystem`] trait, so the in-memory [`MapFileSystem`] checks them with
//! no real I/O. Paths are POSIX-style, `/`-separated.
use crate::path::{
    abs_path, is_absolute, join_chars, join_spec, lemma_normalize_idempotent, normalize_chars,
    normalize_spec, path_parts, slash, split_nonempty, views,
};
use crate::text::{append_chars, chars_eq, chars_of, string_of};
use vstd::prelude::*;
use vstd::string::*;

verus! {

pub open spec fn node_modules_name() -> Seq<char> {
    seq!['n', 'o', 'd', 'e', '_', 'm', 'o', 'd', 'u', 'l', 'e', 's']
}

pub open spec fn js_ext() -> Seq<char> {
    seq!['.', 'j', 's']
}

pub open spec fn json_ext() -> Seq<char> {
    seq!['.', 'j', 's', 'o', 'n']
}

pub open spec fn index_name() -> Seq<char> {
    seq!['i', 'n', 'd', 'e', 'x']
}

/// `prefix` is a prefix of `s`.
pub open spec fn starts_with(s: Seq<char>, prefix: Seq<char>) -> bool {
    prefix.len() <= s.len() && s.take(prefix.len() as int) == prefix
}

/// `./x`, `../x` and `/x` are paths; anything else names a package.
pub open spec fn is_path_request(request: Seq<char>) -> bool {
    starts_with(request, seq!['.', '/']) || starts_with(request, seq!['.', '.', '/'])
        || starts_with(request, slash())
}

/// The `node_modules` directory directly under the directory `parts`.
pub open spec fn modules_dir(parts: Seq<Seq<char>>) -> Seq<char> {
    abs_path(parts) + slash() + node_modules_name()
}

/// The candidate contributed by the ancestor made of the first `k`
/// segments: none when that ancestor is itself a `node_modules` directory.
pub open spec fn modules_candidate(parts: Seq<Seq<char>>, k: int) -> Seq<Seq<char>> {
    if k == 0 || parts[k - 1] != node_modules_name() {
        seq![modules_dir(parts.take(k))]
    } else {
        Seq::empty()
    }
}

/// Candidates for the ancestors made of the first `k`, `k - 1`, ..., `0`
/// segments, nearest first.
pub open spec fn modules_candidates(parts: Seq<Seq<char>>, k: int) -> Seq<Seq<char>>
    decreases k,
{
    if k <= 0 {
        modules_candidate(parts, 0)
    } else {
        modules_candidate(parts, k) + modules_candidates(parts, k - 1)
    }
}

/// `NODE_MODULES_PATHS(start)`: the `node_modules` directory of `start` and
/// of each ancestor up to the root, nearest first, skipping ancestors that
/// are themselves `node_modules` directories.
pub open spec fn node_modules_paths_spec(start: Seq<char>) -> Seq<Seq<char>> {
    let parts = path_parts(normalize_spec(start));
    modules_candidates(parts, parts.len() as int)
}

/// Existence checks and `package.json` lookups that resolution needs.
///
/// `file_exists`, `dir_exists` and `main_entry` say what the implementing
/// file system holds; the methods report exactly that.
pub trait FileSystem {
    /// `path` exists as a file.
    spec fn file_exists(&self, path: Seq<char>) -> bool;

    /// `path` exists as a directory.
    spec fn dir_exists(&self, path: Seq<char>) -> bool;

    /// The `main` field of `dir/package.json`, if any.
    spec fn main_entry(&self, dir: Seq<char>) -> Option<Seq<char>>;

    /// True when `path` exists as a file.
    fn is_file(&self, path: &str) -> (b: bool)
        ensures
            b == self.file_exists(path@),
    ;

    /// True when `path` exists as a directory.
    fn is_dir(&self, path: &str) -> (b: bool)
        ensures
            b == self.dir_exists(path@),
    ;

    /// The `main` field of `dir/package.json` (relative to `dir`, or
    /// absolute), or `None`.
    fn package_main(&self, dir: &str) -> (m: Option<String>)
        ensures
            match m {
                Some(s) => self.main_entry(dir@) == Some(s@),
                None => self.main_entry(dir@) is None,
            },
    ;
}

/// `LOAD_AS_FILE(p)`: `p`, then `p.js`, then `p.json`.
pub open spec fn load_as_file_spec<F: FileSystem + ?Sized>(fs: &F, p: Seq<char>) -> Option<Seq<char>> {
    if fs.file_exists(p) {
        Some(p)
    } else if fs.file_exists(p + js_ext()) {
        Some(p + js_ext())
    } else if fs.file_exists(p + json_ext()) {
        Some(p + json_ext())
    } else {
        None
    }
}

/// `dir/index.js`, then `dir/index.json`.
pub open spec fn load_index_spec<F: FileSystem + ?Sized>(fs: &F, dir: Seq<char>) -> Option<Seq<char>> {
    let js = normalize_spec(join_spec(dir, index_name() + js_ext()));
    let json = normalize_spec(join_spec(dir, index_name() + json_ext()));
    if fs.file_exists(js) {
        Some(js)
    } else if fs.file_exists(json) {
        Some(json)
    } else {
        None
    }
}

/// `LOAD_AS_DIRECTORY(p)`: when `p` is a directory, the `package.json`
/// `main` (as a file, then as a directory's index), then `p`'s own index.
pub open spec fn load_as_directory_spec<F: FileSystem + ?Sized>(fs: &F, p: Seq<char>) -> Option<Seq<char>> {
    if !fs.dir_exists(p) {
        None
    } else {
        match fs.main_entry(p) {
            Some(main) => {
                let main_path = normalize_spec(join_spec(p, main));
                match load_as_file_spec(fs, main_path) {
                    Some(hit) => Some(hit),
                    None => match load_index_spec(fs, main_path) {
                        Some(hit) => Some(hit),
                        None => load_index_spec(fs, p),
                    },
                }
            },
            None => load_index_spec(fs, p),
        }
    }
}

/// `LOAD_AS_FILE(p)`, then `LOAD_AS_DIRECTORY(p)`.
pub open spec fn load_spec<F: FileSystem + ?Sized>(fs: &F, p: Seq<char>) -> Option<Seq<char>> {
    match load_as_file_spec(fs, p) {
        Some(hit) => Some(hit),
        None => load_as_directory_spec(fs, p),
    }
}

/// The first of the directories `dirs` in which `request` loads.
pub open spec fn search_modules_spec<F: FileSystem + ?Sized>(
    fs: &F,
    dirs: Seq<Seq<char>>,
    request: Seq<char>,
) -> Option<Seq<char>>
    decreases dirs.len(),
{
    if dirs.len() == 0 {
        None
    } else {
        match load_spec(fs, normalize_spec(join_spec(dirs[0], request))) {
            Some(hit) => Some(hit),
            None => search_modules_spec(fs, dirs.drop_first(), request),
        }
    }
}

/// Where `require(request)` from `from_dir` leads, if anywhere.
pub open spec fn resolve_spec<F: FileSystem + ?Sized>(
    fs: &F,
    request: Seq<char>,
    from_dir: Seq<char>,
) -> Option<Seq<char>> {
    if is_path_request(request) {
        let base = if is_absolute(request) {
            normalize_spec(request)
        } else {
            normalize_spec(join_spec(from_dir, request))
        };
        load_spec(fs, base)
    } else {
        search_modules_spec(fs, node_modules_paths_spec(from_dir), request)
    }
}

/// Why resolution failed.
#[derive(Debug, Clone, PartialEq, Eq)]
pub enum ResolveError {
    /// No candidate path exists (Node's `MODULE_NOT_FOUND`).
    NotFound { request: String, from_dir: String },
}

/// The message of a failed resolution.
pub open spec fn not_found_message(request: Seq<char>, from_dir: Seq<char>) -> Seq<char> {
    "Cannot find module '"@ + request + "' from '"@ + from_dir + "'"@
}

impl ResolveError {
    /// `Cannot find module '<request>' from '<from_dir>'`.
    pub fn message(&self) -> (m: String)
        ensures
            match self {
                ResolveError::NotFound { request, from_dir } => m@ == not_found_message(
                    request@,
                    from_dir@,
                ),
            },
    {
        match self {
            ResolveError::NotFound { request, from_dir } => {
                let mut m = String::from_str("Cannot find module '");
                m.append(request.as_str());
                m.append("' from '");
                m.append(from_dir.as_str());
                m.append("'");
                m
            },
        }
    }
}

fn node_modules_chars() -> (v: Vec<char>)
    ensures
        v@ == node_modules_name(),
{
    let v = vec!['n', 'o', 'd', 'e', '_', 'm', 'o', 'd', 'u', 'l', 'e', 's'];
    proof {
        assert(v@ =~= node_modules_name());
    }
    v
}

/// `/p1/p2/.../pk/node_modules` for the segments `parts`.
fn modules_dir_chars(parts: &Vec<Vec<char>>) -> (r: Vec<char>)
    ensures
        r@ == modules_dir(views(parts@)),
{
    let mut r: Vec<char> = Vec::new();
    let mut i: usize = 0;
    let ghost ps = views(parts@);
    proof {
        assert(ps.take(0) =~= Seq::<Seq<char>>::empty());
    }
    while i < parts.len()
        invariant
            ps == views(parts@),
            i <= parts@.len(),
            r@ == abs_path(ps.take(i as int)),
        decreases parts@.len() - i,
    {
        r.push('/');
        append_chars(&mut r, &parts[i]);
        proof {
            let t = ps.take(i + 1);
            assert(t.drop_last() =~= ps.take(i as int));
            assert(r@ =~= abs_path(t));
        }
        i = i + 1;
    }
    proof {
        assert(ps.take(parts@.len() as int) =~= ps);
    }
    r.push('/');
    let nm = node_modules_chars();
    append_chars(&mut r, &nm);
    proof {
        assert(r@ =~= modules_dir(ps));
    }
    r
}

/// The character views of a sequence of strings.
pub open spec fn string_views(v: Seq<String>) -> Seq<Seq<char>> {
    v.map_values(|s: String| s@)
}

/// `NODE_MODULES_PATHS(start)`: the `node_modules` directories to search
/// from `start`, nearest first (see [`node_modules_paths_spec`]).
pub fn node_modules_paths(start: &str) -> (r: Vec<String>)
    ensures
        string_views(r@) == node_modules_paths_spec(start@),
{
    let normalized = normalize_chars(&chars_of(start));
    let mut parts = split_nonempty(&normalized);
    let ghost all = views(parts@);
    let mut result: Vec<String> = Vec::new();
    let nm = node_modules_chars();
    proof {
        assert(all.take(all.len() as int) =~= all);
        assert(string_views(result@) =~= Seq::<Seq<char>>::empty());
    }
    loop
        invariant_except_break
            string_views(result@) + modules_candidates(all, parts@.len() as int)
                == modules_candidates(all, all.len() as int),
        invariant
            nm@ == node_modules_name(),
            all == path_parts(normalize_spec(start@)),
            parts@.len() <= all.len(),
            views(parts@) == all.take(parts@.len() as int),
        ensures
            string_views(result@) == modules_candidates(all, all.len() as int),
        decreases parts@.len(),
    {
        let k = parts.len();
        let ghost before = string_views(result@);
        let here = k == 0 || !chars_eq(&parts[k - 1], &nm);
        if here {
            let d = string_of(&modules_dir_chars(&parts));
            result.push(d);
        }
        proof {
            if k > 0 {
                assert(views(parts@)[k - 1] == all[k - 1]);
            }
            assert(views(parts@) == all.take(k as int));
            if here {
                assert(string_views(result@) =~= before + modules_candidate(all, k as int));
            } else {
                assert(string_views(result@) =~= before + modules_candidate(all, k as int));
            }
        }
        if k == 0 {
            proof {
                assert(string_views(result@) =~= modules_candidates(all, all.len() as int));
            }
            break;
        }
        parts.pop();
        proof {
            assert(views(parts@) =~= all.take(k - 1));
            assert(string_views(result@) + modules_candidates(all, k - 1) =~= before + (
            modules_candidate(all, k as int) + modules_candidates(all, k - 1)));
        }
    }
    result
}

/// Normal form of a POSIX-style path: `.` removed, `..` folded into its
/// parent, repeated slashes collapsed; an absolute path stays absolute.
pub fn normalize(path: &str) -> (r: String)
    ensures
        r@ == normalize_spec(path@),
{
    string_of(&normalize_chars(&chars_of(path)))
}


/// `Some(v@)` for `Some(v)`.
pub open spec fn opt_view(o: Option<Vec<char>>) -> Option<Seq<char>> {
    match o {
        Some(v) => Some(v@),
        None => None,
    }
}

fn check_file<F: FileSystem + ?Sized>(fs: &F, p: &Vec<char>) -> (b: bool)
    ensures
        b == fs.file_exists(p@),
{
    let s = string_of(p);
    fs.is_file(s.as_str())
}

fn check_dir<F: FileSystem + ?Sized>(fs: &F, p: &Vec<char>) -> (b: bool)
    ensures
        b == fs.dir_exists(p@),
{
    let s = string_of(p);
    fs.is_dir(s.as_str())
}

fn js_chars() -> (v: Vec<char>)
    ensures
        v@ == js_ext(),
{
    let v = vec!['.', 'j', 's'];
    proof {
        assert(v@ =~= js_ext());
    }
    v
}

fn json_chars() -> (v: Vec<char>)
    ensures
        v@ == json_ext(),
{
    let v = vec!['.', 'j', 's', 'o', 'n'];
    proof {
        assert(v@ =~= json_ext());
    }
    v
}

fn index_chars() -> (v: Vec<char>)
    ensures
        v@ == index_name(),
{
    let v = vec!['i', 'n', 'd', 'e', 'x'];
    proof {
        assert(v@ =~= index_name());
    }
    v
}

/// `a` followed by `b`.
fn concat_chars(a: &Vec<char>, b: &Vec<char>) -> (r: Vec<char>)
    ensures
        r@ == a@ + b@,
{
    let mut r: Vec<char> = Vec::new();
    append_chars(&mut r, a);
    append_chars(&mut r, b);
    proof {
        assert(r@ =~= a@ + b@);
    }
    r
}

/// `LOAD_AS_FILE(path)`: `path`, then `path.js`, then `path.json`.
fn load_as_file_chars<F: FileSystem + ?Sized>(path: &Vec<char>, fs: &F) -> (r: Option<Vec<char>>)
    ensures
        opt_view(r) == load_as_file_spec(fs, path@),
{
    if check_file(fs, path) {
        let mut hit: Vec<char> = Vec::new();
        append_chars(&mut hit, path);
        proof {
            assert(hit@ =~= path@);
        }
        return Some(hit);
    }
    let with_js = concat_chars(path, &js_chars());
    if check_file(fs, &with_js) {
        return Some(with_js);
    }
    let with_json = concat_chars(path, &json_chars());
    if check_file(fs, &with_json) {
        return Some(with_json);
    }
    None
}

/// `dir/index.js`, then `dir/index.json`.
fn load_index_chars<F: FileSystem + ?Sized>(dir: &Vec<char>, fs: &F) -> (r: Option<Vec<char>>)
    ensures
        opt_view(r) == load_index_spec(fs, dir@),
{
    let index = index_chars();
    let js = normalize_chars(&join_chars(dir, &concat_chars(&index, &js_chars())));
    if check_file(fs, &js) {
        return Some(js);
    }
    let json = normalize_chars(&join_chars(dir, &concat_chars(&index, &json_chars())));
    if check_file(fs, &json) {
        return Some(json);
    }
    None
}

/// `LOAD_AS_DIRECTORY(path)`: the `package.json` `main` (as a file, then
/// as a directory's index), then the directory's own index.
fn load_as_directory_chars<F: FileSystem + ?Sized>(path: &Vec<char>, fs: &F) -> (r: Option<Vec<char>>)
    ensures
        opt_view(r) == load_as_directory_spec(fs, path@),
{
    if !check_dir(fs, path) {
        return None;
    }
    let dir = string_of(path);
    if let Some(main) = fs.package_main(dir.as_str()) {
        let main_path = normalize_chars(&join_chars(path, &chars_of(main.as_str())));
        if let Some(hit) = load_as_file_chars(&main_path, fs) {
            return Some(hit);
        }
        if let Some(hit) = load_index_chars(&main_path, fs) {
            return Some(hit);
        }
    }
    load_index_chars(path, fs)
}

/// `LOAD_AS_FILE(path)`, then `LOAD_AS_DIRECTORY(path)`.
fn load<F: FileSystem + ?Sized>(path: &Vec<char>, fs: &F) -> (r: Option<Vec<char>>)
    ensures
        opt_view(r) == load_spec(fs, path@),
{
    match load_as_file_chars(path, fs) {
        Some(hit) => Some(hit),
        None => load_as_directory_chars(path, fs),
    }
}

/// Resolves `require(request)` from the directory `from_dir` and returns
/// the path it leads to.
///
/// A request starting with `./`, `../` or `/` is a path: it is tried as a
/// file, then as a directory. Any other request names a package, looked up
/// in the `node_modules` directories from `from_dir` up to the root,
/// nearest first. When nothing is found the error carries the request and
/// the directory.
pub fn resolve<F: FileSystem + ?Sized>(request: &str, from_dir: &str, fs: &F) -> (r: Result<
    String,
    ResolveError,
>)
    ensures
        match r {
            Ok(path) => resolve_spec(fs, request@, from_dir@) == Some(path@),
            Err(ResolveError::NotFound { request: req, from_dir: dir }) => {
                &&& resolve_spec(fs, request@, from_dir@) is None
                &&& req@ == request@
                &&& dir@ == from_dir@
            },
        },
{
    let req = chars_of(request);
    let from = chars_of(from_dir);
    let dot_slash = vec!['.', '/'];
    let dot_dot_slash = vec!['.', '.', '/'];
    proof {
        assert(dot_slash@ =~= seq!['.', '/']);
        assert(dot_dot_slash@ =~= seq!['.', '.', '/']);
    }
    let is_path = has_prefix(&req, &dot_slash) || has_prefix(&req, &dot_dot_slash) || (req.len() > 0
        && req[0] == '/');
    proof {
        if req@.len() > 0 {
            assert(req@.take(1) =~= seq![req@[0]]);
            if req@[0] == '/' {
                assert(req@.take(1) =~= slash());
            }
            if starts_with(req@, slash()) {
                assert(req@.take(1)[0] == '/');
            }
        }
        assert(starts_with(req@, slash()) <==> is_absolute(req@));
    }
    if is_path {
        let base = if req.len() > 0 && req[0] == '/' {
            normalize_chars(&req)
        } else {
            normalize_chars(&join_chars(&from, &req))
        };
        match load(&base, fs) {
            Some(hit) => Ok(string_of(&hit)),
            None => Err(
                ResolveError::NotFound {
                    request: String::from_str(request),
                    from_dir: String::from_str(from_dir),
                },
            ),
        }
    } else {
        let dirs = node_modules_paths(from_dir);
        let ghost dv = string_views(dirs@);
        let mut i: usize = 0;
        proof {
            assert(dv.skip(0) =~= dv);
        }
        while i < dirs.len()
            invariant
                dv == string_views(dirs@),
                dv == node_modules_paths_spec(from_dir@),
                req@ == request@,
                !is_path_request(request@),
                i <= dirs@.len(),
                search_modules_spec(fs, dv, req@) == search_modules_spec(fs, dv.skip(i as int), req@),
            decreases dirs@.len() - i,
        {
            let candidate = normalize_chars(&join_chars(&chars_of(dirs[i].as_str()), &req));
            proof {
                assert(dv.skip(i as int)[0] == dirs@[i as int]@);
                assert(dv.skip(i as int).drop_first() =~= dv.skip(i + 1));
            }
            if let Some(hit) = load(&candidate, fs) {
                proof {
                    assert(search_modules_spec(fs, dv.skip(i as int), req@) == Some(hit@));
                }
                return Ok(string_of(&hit));
            }
            i = i + 1;
        }
        proof {
            assert(dv.skip(dirs@.len() as int) =~= Seq::<Seq<char>>::empty());
        }
        Err(
            ResolveError::NotFound {
                request: String::from_str(request),
                from_dir: String::from_str(from_dir),
            },
        )
    }
}

/// Whether `s` starts with `prefix`.
fn has_prefix(s: &Vec<char>, prefix: &Vec<char>) -> (b: bool)
    ensures
        b == starts_with(s@, prefix@),
{
    if prefix.len() > s.len() {
        return false;
    }
    let mut i: usize = 0;
    while i < prefix.len()
        invariant
            prefix@.len() <= s@.len(),
            i <= prefix@.len(),
            forall|j: int| 0 <= j < i ==> s@[j] == prefix@[j],
        decreases prefix@.len() - i,
    {
        if s[i] != prefix[i] {
            proof {
                assert(s@.take(prefix@.len() as int)[i as int] != prefix@[i as int]);
            }
            return false;
        }
        i = i + 1;
    }
    proof {
        assert(s@.take(prefix@.len() as int) =~= prefix@);
    }
    true
}


/// The ancestor directories of the file `path` (after normalisation):
/// `/a`, `/a/b`, ... up to its parent; the root is not included.
pub open spec fn ancestor_dirs(path: Seq<char>) -> Set<Seq<char>> {
    let parts = path_parts(normalize_spec(path));
    Set::new(|d: Seq<char>| exists|k: int| 1 <= k < parts.len() && d == #[trigger] abs_path(parts.take(k)))
}

/// The strings of `v`, as a set of character sequences.
pub open spec fn string_set(v: Seq<String>) -> Set<Seq<char>> {
    Set::new(|p: Seq<char>| exists|i: int| 0 <= i < v.len() && #[trigger] v[i]@ == p)
}

/// The value paired with the first key equal to `key`.
pub open spec fn first_value(entries: Seq<(String, String)>, key: Seq<char>) -> Option<Seq<char>>
    decreases entries.len(),
{
    if entries.len() == 0 {
        None
    } else if entries[0].0@ == key {
        Some(entries[0].1@)
    } else {
        first_value(entries.drop_first(), key)
    }
}

/// In-memory [`FileSystem`] for tests and experiments: the set of files, the
/// set of directories, and the `package.json` `main` of some directories.
///
/// The entries are kept in vectors searched linearly, with set and map
/// meaning given by `file_set`, `dir_set` and `main_of`: vstd specifies
/// `BTreeSet` and `BTreeMap` only for keys known to obey `Ord`'s laws
/// (`obeys_cmp`), and it establishes that for no `String`. As in a set or a
/// map, no entry is held twice (`entries_distinct`, established by `new`
/// and kept by every builder).
#[derive(Debug, Clone)]
pub struct MapFileSystem {
    files: Vec<String>,
    dirs: Vec<String>,
    package_mains: Vec<(String, String)>,
}

/// No two strings of `v` are equal.
pub open spec fn strings_distinct(v: Seq<String>) -> bool {
    forall|i: int, j: int| 0 <= i < v.len() && 0 <= j < v.len() && i != j ==> #[trigger] v[i]@ != #[trigger] v[j]@
}

/// No two entries of `entries` have equal keys.
pub open spec fn keys_distinct(entries: Seq<(String, String)>) -> bool {
    forall|i: int, j: int|
        0 <= i < entries.len() && 0 <= j < entries.len() && i != j ==> #[trigger] entries[i].0@ != #[trigger] entries[j].0@
}

/// Adds `item` to `v` unless an equal string is already there.
fn insert_string(v: &mut Vec<String>, item: String)
    ensures
        string_set(final(v)@) == string_set(old(v)@).insert(item@),
        strings_distinct(old(v)@) ==> strings_distinct(final(v)@),
{
    let mut i: usize = 0;
    while i < v.len()
        invariant
            i <= v@.len(),
            forall|j: int| 0 <= j < i ==> v@[j]@ != item@,
        decreases v@.len() - i,
    {
        if v[i] == item {
            proof {
                assert(string_set(v@) =~= string_set(v@).insert(item@));
            }
            return;
        }
        i = i + 1;
    }
    let ghost before = v@;
    let ghost iv = item@;
    v.push(item);
    proof {
        assert forall|p: Seq<char>| #[trigger] string_set(v@).contains(p) <==> string_set(before).insert(iv).contains(p) by {
            if string_set(v@).contains(p) {
                let j = choose|j: int| 0 <= j < v@.len() && #[trigger] v@[j]@ == p;
                if j < before.len() {
                    assert(before[j]@ == p);
                }
            }
            if string_set(before).contains(p) {
                let j = choose|j: int| 0 <= j < before.len() && #[trigger] before[j]@ == p;
                assert(v@[j]@ == p);
            }
            if p == iv {
                assert(v@[before.len() as int]@ == p);
            }
        }
        assert(string_set(v@) =~= string_set(before).insert(iv));
        if strings_distinct(before) {
            assert forall|a: int, b: int| 0 <= a < v@.len() && 0 <= b < v@.len() && a != b implies #[trigger] v@[a]@ != #[trigger] v@[b]@ by {
                if a < before.len() && b < before.len() {
                    assert(v@[a] == before[a] && v@[b] == before[b]);
                } else if a < before.len() {
                    assert(v@[a] == before[a]);
                } else {
                    assert(v@[b] == before[b]);
                }
            }
        }
    }
}

/// Whether an equal string is in `v`.
fn contains_string(v: &Vec<String>, item: &String) -> (b: bool)
    ensures
        b == string_set(v@).contains(item@),
{
    let mut i: usize = 0;
    while i < v.len()
        invariant
            i <= v@.len(),
            forall|j: int| 0 <= j < i ==> v@[j]@ != item@,
        decreases v@.len() - i,
    {
        if v[i] == *item {
            proof {
                assert(v@[i as int]@ == item@);
            }
            return true;
        }
        i = i + 1;
    }
    false
}

impl MapFileSystem {
    /// The files it holds.
    pub closed spec fn file_set(&self) -> Set<Seq<char>> {
        string_set(self.files@)
    }

    /// The directories it holds.
    pub closed spec fn dir_set(&self) -> Set<Seq<char>> {
        string_set(self.dirs@)
    }

    /// The `package.json` `main` registered for `dir`, if any.
    pub closed spec fn main_of(&self, dir: Seq<char>) -> Option<Seq<char>> {
        first_value(self.package_mains@, dir)
    }

    /// No file, directory or `package.json` directory is held twice.
    pub closed spec fn entries_distinct(&self) -> bool {
        &&& strings_distinct(self.files@)
        &&& strings_distinct(self.dirs@)
        &&& keys_distinct(self.package_mains@)
    }

    /// An empty file system.
    pub fn new() -> (fs: Self)
        ensures
            fs.file_set() == Set::<Seq<char>>::empty(),
            fs.dir_set() == Set::<Seq<char>>::empty(),
            forall|d: Seq<char>| #[trigger] fs.main_of(d) is None,
            fs.entries_distinct(),
    {
        let fs = MapFileSystem { files: Vec::new(), dirs: Vec::new(), package_mains: Vec::new() };
        proof {
            assert(fs.file_set() =~= Set::<Seq<char>>::empty());
            assert(fs.dir_set() =~= Set::<Seq<char>>::empty());
        }
        fs
    }

    /// Registers the file `path` (normalised) and every ancestor directory,
    /// the root included.
    pub fn with_file(self, path: &str) -> (fs: Self)
        ensures
            fs.file_set() == self.file_set().insert(normalize_spec(path@)),
            fs.dir_set() == self.dir_set().union(ancestor_dirs(path@)).insert(slash()),
            forall|d: Seq<char>| #[trigger] fs.main_of(d) == self.main_of(d),
            self.entries_distinct() ==> fs.entries_distinct(),
    {
        let mut fs = self;
        let p = normalize_chars(&chars_of(path));
        let mut parts = split_nonempty(&p);
        let ghost all = views(parts@);
        parts.pop();
        let n = parts.len();
        let mut acc: Vec<char> = Vec::new();
        let mut i: usize = 0;
        proof {
            assert(all.take(0) =~= Seq::<Seq<char>>::empty());
        }
        while i < n
            invariant
                n == parts@.len(),
                all == path_parts(normalize_spec(path@)),
                n == if all.len() > 0 { all.len() - 1 } else { 0 },
                forall|j: int| 0 <= j < n ==> #[trigger] parts@[j]@ == all[j],
                i <= n,
                acc@ == abs_path(all.take(i as int)),
                fs.files@ == self.files@,
                fs.package_mains@ == self.package_mains@,
                self.entries_distinct() ==> strings_distinct(fs.dirs@),
                string_set(fs.dirs@) == string_set(self.dirs@).union(
                    Set::new(|d: Seq<char>| exists|k: int| 1 <= k <= i && d == #[trigger] abs_path(all.take(k))),
                ),
            decreases n - i,
        {
            acc.push('/');
            append_chars(&mut acc, &parts[i]);
            proof {
                let t = all.take(i + 1);
                assert(t.drop_last() =~= all.take(i as int));
                assert(acc@ =~= abs_path(t));
            }
            let ghost before = string_set(fs.dirs@);
            insert_string(&mut fs.dirs, string_of(&acc));
            proof {
                let lo = Set::new(|d: Seq<char>| exists|k: int| 1 <= k <= i && d == #[trigger] abs_path(all.take(k)));
                let hi = Set::new(|d: Seq<char>| exists|k: int| 1 <= k <= i + 1 && d == #[trigger] abs_path(all.take(k)));
                assert(hi =~= lo.insert(abs_path(all.take(i + 1))));
                assert(string_set(fs.dirs@) =~= string_set(self.dirs@).union(hi));
            }
            i = i + 1;
        }
        proof {
            let lo = Set::new(|d: Seq<char>| exists|k: int| 1 <= k <= n && d == #[trigger] abs_path(all.take(k)));
            assert(lo =~= ancestor_dirs(path@));
        }
        let root = String::from_str("/");
        proof {
            reveal_strlit("/");
            assert(root@ =~= slash());
        }
        insert_string(&mut fs.dirs, root);
        insert_string(&mut fs.files, string_of(&p));
        proof {
            assert(fs.dir_set() =~= self.dir_set().union(ancestor_dirs(path@)).insert(slash()));
        }
        fs
    }

    /// Registers `main` as the `package.json` `main` of the directory `dir`
    /// (normalised), which is registered as a directory.
    pub fn with_package_main(self, dir: &str, main: &str) -> (fs: Self)
        ensures
            fs.file_set() == self.file_set(),
            fs.dir_set() == self.dir_set().insert(normalize_spec(dir@)),
            forall|d: Seq<char>| #[trigger] fs.main_of(d) == if d == normalize_spec(dir@) {
                Some(main@)
            } else {
                self.main_of(d)
            },
            self.entries_distinct() ==> fs.entries_distinct(),
    {
        let mut fs = self;
        let d = string_of(&normalize_chars(&chars_of(dir)));
        insert_string(&mut fs.dirs, d.clone());
        let m = String::from_str(main);
        let n = fs.package_mains.len();
        let mut i: usize = 0;
        while i < n
            invariant
                n == fs.package_mains@.len(),
                fs.package_mains@ == self.package_mains@,
                fs.files@ == self.files@,
                self.entries_distinct() ==> strings_distinct(fs.dirs@),
                string_set(fs.dirs@) == string_set(self.dirs@).insert(normalize_spec(dir@)),
                d@ == normalize_spec(dir@),
                m@ == main@,
                i <= n,
                forall|j: int| 0 <= j < i ==> #[trigger] fs.package_mains@[j].0@ != d@,
            decreases n - i,
        {
            if fs.package_mains[i].0 == d {
                let ghost before = fs.package_mains@;
                fs.package_mains.set(i, (d, m));
                proof {
                    assert forall|k: Seq<char>| #[trigger] fs.main_of(k) == if k == d@ {
                        Some(main@)
                    } else {
                        self.main_of(k)
                    } by {
                        lemma_first_value_update(before, i as int, d, m, k);
                    }
                    if self.entries_distinct() {
                        assert forall|a: int, b: int|
                            0 <= a < fs.package_mains@.len() && 0 <= b < fs.package_mains@.len() && a != b
                            implies #[trigger] fs.package_mains@[a].0@ != #[trigger] fs.package_mains@[b].0@ by {
                            if a != i && b != i {
                                assert(fs.package_mains@[a] == before[a] && fs.package_mains@[b] == before[b]);
                            } else if a == i {
                                assert(fs.package_mains@[b] == before[b]);
                                assert(before[i as int].0@ == d@);
                            } else {
                                assert(fs.package_mains@[a] == before[a]);
                                assert(before[i as int].0@ == d@);
                            }
                        }
                    }
                }
                return fs;
            }
            i = i + 1;
        }
        let ghost before = fs.package_mains@;
        fs.package_mains.push((d, m));
        proof {
            assert forall|k: Seq<char>| #[trigger] fs.main_of(k) == if k == d@ {
                Some(main@)
            } else {
                self.main_of(k)
            } by {
                lemma_first_value_push(before, d, m, k);
            }
            if self.entries_distinct() {
                assert forall|a: int, b: int|
                    0 <= a < fs.package_mains@.len() && 0 <= b < fs.package_mains@.len() && a != b
                    implies #[trigger] fs.package_mains@[a].0@ != #[trigger] fs.package_mains@[b].0@ by {
                    if a < before.len() && b < before.len() {
                        assert(fs.package_mains@[a] == before[a] && fs.package_mains@[b] == before[b]);
                    } else if a < before.len() {
                        assert(fs.package_mains@[a] == before[a]);
                    } else {
                        assert(fs.package_mains@[b] == before[b]);
                    }
                }
            }
        }
        fs
    }
}

proof fn lemma_first_value_update(
    entries: Seq<(String, String)>,
    i: int,
    key: String,
    value: String,
    k: Seq<char>,
)
    requires
        0 <= i < entries.len(),
        entries[i].0@ == key@,
        forall|j: int| 0 <= j < i ==> #[trigger] entries[j].0@ != key@,
    ensures
        first_value(entries.update(i, (key, value)), k) == if k == key@ {
            Some(value@)
        } else {
            first_value(entries, k)
        },
    decreases i,
{
    let e2 = entries.update(i, (key, value));
    assert(e2[0] == if i == 0 { (key, value) } else { entries[0] });
    if i == 0 {
        assert(e2.drop_first() =~= entries.drop_first());
    }
    if i > 0 {
        assert(e2.drop_first() =~= entries.drop_first().update(i - 1, (key, value)));
        assert forall|j: int| 0 <= j < i - 1 implies #[trigger] entries.drop_first()[j].0@ != key@ by {
            assert(entries[j + 1].0@ != key@);
        }
        lemma_first_value_update(entries.drop_first(), i - 1, key, value, k);
    }
}

proof fn lemma_first_value_push(entries: Seq<(String, String)>, key: String, value: String, k: Seq<char>)
    requires
        forall|j: int| 0 <= j < entries.len() ==> #[trigger] entries[j].0@ != key@,
    ensures
        first_value(entries.push((key, value)), k) == if k == key@ {
            Some(value@)
        } else {
            first_value(entries, k)
        },
    decreases entries.len(),
{
    let e2 = entries.push((key, value));
    if entries.len() > 0 {
        assert(e2[0] == entries[0]);
        assert(e2.drop_first() =~= entries.drop_first().push((key, value)));
        assert forall|j: int| 0 <= j < entries.len() - 1 implies #[trigger] entries.drop_first()[j].0@ != key@ by {
            assert(entries[j + 1].0@ != key@);
        }
        lemma_first_value_push(entries.drop_first(), key, value, k);
    } else {
        assert(e2.drop_first() =~= Seq::<(String, String)>::empty());
        assert(first_value(e2.drop_first(), k) is None);
        assert(e2[0] == (key, value));
    }
}

/// The value paired with the first key equal to `key`.
fn lookup_value(entries: &Vec<(String, String)>, key: &String) -> (r: Option<String>)
    ensures
        match r {
            Some(v) => first_value(entries@, key@) == Some(v@),
            None => first_value(entries@, key@) is None,
        },
{
    let mut i: usize = 0;
    proof {
        assert(entries@.skip(0) =~= entries@);
    }
    while i < entries.len()
        invariant
            i <= entries@.len(),
            first_value(entries@, key@) == first_value(entries@.skip(i as int), key@),
        decreases entries@.len() - i,
    {
        proof {
            assert(entries@.skip(i as int).drop_first() =~= entries@.skip(i + 1));
            assert(entries@.skip(i as int)[0] == entries@[i as int]);
        }
        if entries[i].0 == *key {
            return Some(entries[i].1.clone());
        }
        i = i + 1;
    }
    None
}

impl FileSystem for MapFileSystem {
    open spec fn file_exists(&self, path: Seq<char>) -> bool {
        self.file_set().contains(normalize_spec(path))
    }

    open spec fn dir_exists(&self, path: Seq<char>) -> bool {
        self.dir_set().contains(normalize_spec(path))
    }

    open spec fn main_entry(&self, dir: Seq<char>) -> Option<Seq<char>> {
        self.main_of(normalize_spec(dir))
    }

    fn is_file(&self, path: &str) -> (b: bool) {
        contains_string(&self.files, &normalize(path))
    }

    fn is_dir(&self, path: &str) -> (b: bool) {
        contains_string(&self.dirs, &normalize(path))
    }

    fn package_main(&self, dir: &str) -> (m: Option<String>) {
        lookup_value(&self.package_mains, &normalize(dir))
    }
}


proof fn lemma_load_exists<F: FileSystem + ?Sized>(fs: &F, p: Seq<char>)
    ensures
        load_spec(fs, p) matches Some(hit) ==> fs.file_exists(hit),
{
}

proof fn lemma_search_exists<F: FileSystem + ?Sized>(fs: &F, dirs: Seq<Seq<char>>, request: Seq<char>)
    ensures
        search_modules_spec(fs, dirs, request) matches Some(hit) ==> fs.file_exists(hit),
    decreases dirs.len(),
{
    if dirs.len() > 0 {
        lemma_load_exists(fs, normalize_spec(join_spec(dirs[0], request)));
        lemma_search_exists(fs, dirs.drop_first(), request);
    }
}

/// Resolution only ever answers with a path that exists as a file.
pub proof fn lemma_resolved_path_exists<F: FileSystem + ?Sized>(fs: &F, request: Seq<char>, from_dir: Seq<char>)
    ensures
        resolve_spec(fs, request, from_dir) matches Some(hit) ==> fs.file_exists(hit),
{
    if is_path_request(request) {
        let base = if is_absolute(request) {
            normalize_spec(request)
        } else {
            normalize_spec(join_spec(from_dir, request))
        };
        lemma_load_exists(fs, base);
    } else {
        lemma_search_exists(fs, node_modules_paths_spec(from_dir), request);
    }
}

/// A [`MapFileSystem`] answers for a path as for its normal form: two
/// spellings of the same path are the same entry.
pub proof fn lemma_map_fs_spelling(fs: &MapFileSystem, p: Seq<char>)
    ensures
        fs.file_exists(p) == fs.file_exists(normalize_spec(p)),
        fs.dir_exists(p) == fs.dir_exists(normalize_spec(p)),
        fs.main_entry(p) == fs.main_entry(normalize_spec(p)),
{
    lemma_normalize_idempotent(p);
}

/// A file registered in a [`MapFileSystem`] is found there afterwards, under
/// any spelling of its path.
pub proof fn lemma_registered_file_found(before: MapFileSystem, after: MapFileSystem, path: Seq<char>, query: Seq<char>)
    requires
        after.file_set() == before.file_set().insert(normalize_spec(path)),
        normalize_spec(query) == normalize_spec(path),
    ensures
        after.file_exists(query),
{
}

impl Default for MapFileSystem {
    /// The same as [`MapFileSystem::new`].
    fn default() -> (fs: Self)
        ensures
            fs.file_set() == Set::<Seq<char>>::empty(),
            fs.dir_set() == Set::<Seq<char>>::empty(),
            forall|d: Seq<char>| #[trigger] fs.main_of(d) is None,
            fs.entries_distinct(),
    {
        MapFileSystem::new()
    }
}


/// `Some(s@)` for `Some(s)`.
pub open spec fn opt_string_view(o: Option<String>) -> Option<Seq<char>> {
    match o {
        Some(s) => Some(s@),
        None => None,
    }
}

fn to_string_opt(o: Option<Vec<char>>) -> (r: Option<String>)
    ensures
        opt_string_view(r) == opt_view(o),
{
    match o {
        Some(v) => Some(string_of(&v)),
        None => None,
    }
}

/// `LOAD_AS_FILE(path)`: `path` itself, then `path.js`, then `path.json`,
/// the first that exists as a file.
pub fn load_as_file<F: FileSystem + ?Sized>(path: &str, fs: &F) -> (r: Option<String>)
    ensures
        opt_string_view(r) == load_as_file_spec(fs, path@),
{
    to_string_opt(load_as_file_chars(&chars_of(path), fs))
}

/// `dir/index.js`, then `dir/index.json` (each normalised), the first that
/// exists as a file.
pub fn load_index<F: FileSystem + ?Sized>(dir: &str, fs: &F) -> (r: Option<String>)
    ensures
        opt_string_view(r) == load_index_spec(fs, dir@),
{
    to_string_opt(load_index_chars(&chars_of(dir), fs))
}

/// `LOAD_AS_DIRECTORY(path)`: nothing unless `path` is a directory; then the
/// `package.json` `main` (as a file, then as a directory's index), then the
/// directory's own index.
pub fn load_as_directory<F: FileSystem + ?Sized>(path: &str, fs: &F) -> (r: Option<String>)
    ensures
        opt_string_view(r) == load_as_directory_spec(fs, path@),
{
    to_string_opt(load_as_directory_chars(&chars_of(path), fs))
}


proof fn lemma_abs_path_take_grows(parts: Seq<Seq<char>>, k1: int, k2: int)
    requires
        0 <= k1 < k2 <= parts.len(),
    ensures
        abs_path(parts.take(k1)).len() < abs_path(parts.take(k2)).len(),
    decreases k2 - k1,
{
    assert(parts.take(k2).drop_last() =~= parts.take(k2 - 1));
    if k1 < k2 - 1 {
        lemma_abs_path_take_grows(parts, k1, k2 - 1);
    }
}

/// The `node_modules` directory under the first `k` segments of `parts`.
spec fn md_at(parts: Seq<Seq<char>>, k: int) -> Seq<char> {
    abs_path(parts.take(k)) + slash() + node_modules_name()
}

/// The first `k` segments of `parts` name an ancestor that is not itself a
/// `node_modules` directory (the root always counts).
spec fn searched_ancestor(parts: Seq<Seq<char>>, k: int) -> bool {
    k == 0 || parts[k - 1] != node_modules_name()
}

proof fn lemma_candidates_shape(parts: Seq<Seq<char>>, top: int)
    requires
        0 <= top <= parts.len(),
    ensures
        modules_candidates(parts, top).len() > 0,
        modules_candidates(parts, top).last() == md_at(parts, 0),
        forall|k: int| 0 <= k <= top && searched_ancestor(parts, k) ==> modules_candidates(parts, top).contains(
            #[trigger] md_at(parts, k),
        ),
        forall|i: int| 0 <= i < modules_candidates(parts, top).len() ==> exists|k: int|
            0 <= k <= top && searched_ancestor(parts, k) && #[trigger] modules_candidates(parts, top)[i]
                == md_at(parts, k),
        forall|i: int, j: int| 0 <= i < j < modules_candidates(parts, top).len() ==>
            (#[trigger] modules_candidates(parts, top)[i]).len() > (#[trigger] modules_candidates(parts, top)[j]).len(),
    decreases top,
{
    let c = modules_candidates(parts, top);
    assert(parts.take(0) =~= Seq::<Seq<char>>::empty());
    if top == 0 {
        assert(c == seq![md_at(parts, 0)]);
        assert forall|k: int| 0 <= k <= top && searched_ancestor(parts, k) implies c.contains(#[trigger] md_at(parts, k)) by {
            assert(c[0] == md_at(parts, 0));
        }
        assert forall|i: int| 0 <= i < c.len() implies exists|k: int|
            0 <= k <= top && searched_ancestor(parts, k) && #[trigger] c[i] == md_at(parts, k) by {
            assert(c[i] == md_at(parts, 0));
        }
    } else {
        lemma_candidates_shape(parts, top - 1);
        let rest = modules_candidates(parts, top - 1);
        let here = modules_candidate(parts, top);
        assert(c == here + rest);
        assert(c.last() == rest.last());
        assert forall|k: int| 0 <= k <= top && searched_ancestor(parts, k) implies c.contains(#[trigger] md_at(parts, k)) by {
            if k == top {
                assert(here == seq![md_at(parts, top)]);
                assert(c[0] == md_at(parts, top));
            } else {
                assert(rest.contains(md_at(parts, k)));
                let j = choose|j: int| 0 <= j < rest.len() && rest[j] == md_at(parts, k);
                assert(c[here.len() + j] == rest[j]);
            }
        }
        assert forall|i: int| 0 <= i < c.len() implies exists|k: int|
            0 <= k <= top && searched_ancestor(parts, k) && #[trigger] c[i] == md_at(parts, k) by {
            if i < here.len() {
                assert(c[i] == md_at(parts, top));
            } else {
                assert(c[i] == rest[i - here.len()]);
                let k = choose|k: int| 0 <= k <= top - 1 && searched_ancestor(parts, k) && #[trigger] rest[i - here.len()] == md_at(parts, k);
                assert(c[i] == md_at(parts, k));
            }
        }
        assert forall|i: int, j: int| 0 <= i < j < c.len() implies (#[trigger] c[i]).len() > (#[trigger] c[j]).len() by {
            if i >= here.len() {
                assert(c[i] == rest[i - here.len()] && c[j] == rest[j - here.len()]);
            } else {
                assert(c[i] == md_at(parts, top));
                assert(c[j] == rest[j - here.len()]);
                let k = choose|k: int| 0 <= k <= top - 1 && searched_ancestor(parts, k) && #[trigger] rest[j - here.len()] == md_at(parts, k);
                lemma_abs_path_take_grows(parts, k, top);
            }
        }
    }
}

/// `node_modules_paths(start)` lists the `node_modules` directory of every
/// ancestor of the normalised `start` (itself included, the root included)
/// that is not itself a `node_modules` directory, one each, nearest (and so
/// longest) first, and ends with `/node_modules`.
pub proof fn lemma_node_modules_paths_shape(start: Seq<char>)
    ensures
        ({
            let parts = path_parts(normalize_spec(start));
            let r = node_modules_paths_spec(start);
            &&& r.len() > 0
            &&& r.last() == slash() + node_modules_name()
            &&& forall|k: int|
                0 <= k <= parts.len() && (k == 0 || parts[k - 1] != node_modules_name()) ==> r.contains(
                    #[trigger] (abs_path(parts.take(k)) + slash() + node_modules_name()),
                )
            &&& forall|i: int| 0 <= i < r.len() ==> exists|k: int|
                0 <= k <= parts.len() && (k == 0 || parts[k - 1] != node_modules_name()) && #[trigger] r[i]
                    == abs_path(parts.take(k)) + slash() + node_modules_name()
            &&& forall|i: int, j: int| 0 <= i < j < r.len() ==> (#[trigger] r[i]).len() > (#[trigger] r[j]).len()
        }),
{
    let parts = path_parts(normalize_spec(start));
    lemma_candidates_shape(parts, parts.len() as int);
    assert(parts.take(0) =~= Seq::<Seq<char>>::empty());
    assert(md_at(parts, 0) =~= slash() + node_modules_name());
    let r = node_modules_paths_spec(start);
    assert forall|k: int|
        0 <= k <= parts.len() && (k == 0 || parts[k - 1] != node_modules_name()) implies r.contains(
            #[trigger] (abs_path(parts.take(k)) + slash() + node_modules_name()),
        ) by {
        assert(searched_ancestor(parts, k));
        assert(r.contains(md_at(parts, k)));
    }
    assert forall|i: int| 0 <= i < r.len() implies exists|k: int|
        0 <= k <= parts.len() && (k == 0 || parts[k - 1] != node_modules_name()) && #[trigger] r[i]
            == abs_path(parts.take(k)) + slash() + node_modules_name() by {
        let k = choose|k: int| 0 <= k <= parts.len() && searched_ancestor(parts, k) && #[trigger] r[i] == md_at(parts, k);
    }
}


/// The path a path request (`./x`, `../x`, `/x`) names: the request itself
/// when absolute, else the request resolved against `from_dir`; normalised.
pub open spec fn path_base(request: Seq<char>, from_dir: Seq<char>) -> Seq<char> {
    if is_absolute(request) {
        normalize_spec(request)
    } else {
        normalize_spec(join_spec(from_dir, request))
    }
}

/// A path request loads its base as a file first: the base itself, then
/// with `.js`, then with `.json`, the first that exists as a file, even when
/// the base is also a directory. Only when none of these is a file does it
/// load the base as a directory.
pub proof fn lemma_path_request_tries_file_first<F: FileSystem + ?Sized>(
    fs: &F,
    request: Seq<char>,
    from_dir: Seq<char>,
)
    requires
        is_path_request(request),
    ensures
        ({
            let b = path_base(request, from_dir);
            let r = resolve_spec(fs, request, from_dir);
            &&& fs.file_exists(b) ==> r == Some(b)
            &&& !fs.file_exists(b) && fs.file_exists(b + js_ext()) ==> r == Some(b + js_ext())
            &&& !fs.file_exists(b) && !fs.file_exists(b + js_ext()) && fs.file_exists(b + json_ext())
                ==> r == Some(b + json_ext())
            &&& !fs.file_exists(b) && !fs.file_exists(b + js_ext()) && !fs.file_exists(b + json_ext())
                ==> r == load_as_directory_spec(fs, b)
        }),
{
}

/// `dir/index.js`, normalised.
pub open spec fn index_js_of(dir: Seq<char>) -> Seq<char> {
    normalize_spec(join_spec(dir, index_name() + js_ext()))
}

/// `dir/index.json`, normalised.
pub open spec fn index_json_of(dir: Seq<char>) -> Seq<char> {
    normalize_spec(join_spec(dir, index_name() + json_ext()))
}

/// Loading a path as a directory: nothing unless it is a directory. Its
/// `package.json` `main`, when there is one, is tried first: as a file (the
/// path, `.js`, `.json`), then as a directory's `index.js`/`index.json`.
/// The directory's own `index.js`/`index.json` is used only when there is no
/// `main` or the `main` leads to none of these files.
pub proof fn lemma_directory_load_order<F: FileSystem + ?Sized>(fs: &F, p: Seq<char>)
    ensures
        !fs.dir_exists(p) ==> load_as_directory_spec(fs, p) is None,
        ({
            let r = load_as_directory_spec(fs, p);
            let own = if fs.file_exists(index_js_of(p)) {
                Some(index_js_of(p))
            } else if fs.file_exists(index_json_of(p)) {
                Some(index_json_of(p))
            } else {
                None
            };
            &&& fs.dir_exists(p) && fs.main_entry(p) is None ==> r == own
            &&& fs.dir_exists(p) && fs.main_entry(p) is Some ==> {
                let mp = normalize_spec(join_spec(p, fs.main_entry(p)->0));
                &&& fs.file_exists(mp) ==> r == Some(mp)
                &&& !fs.file_exists(mp) && fs.file_exists(mp + js_ext()) ==> r == Some(mp + js_ext())
                &&& !fs.file_exists(mp) && !fs.file_exists(mp + js_ext()) && fs.file_exists(mp + json_ext())
                    ==> r == Some(mp + json_ext())
                &&& !fs.file_exists(mp) && !fs.file_exists(mp + js_ext()) && !fs.file_exists(mp + json_ext())
                    && fs.file_exists(index_js_of(mp)) ==> r == Some(index_js_of(mp))
                &&& !fs.file_exists(mp) && !fs.file_exists(mp + js_ext()) && !fs.file_exists(mp + json_ext())
                    && !fs.file_exists(index_js_of(mp)) && fs.file_exists(index_json_of(mp))
                    ==> r == Some(index_json_of(mp))
                &&& !fs.file_exists(mp) && !fs.file_exists(mp + js_ext()) && !fs.file_exists(mp + json_ext())
                    && !fs.file_exists(index_js_of(mp)) && !fs.file_exists(index_json_of(mp)) ==> r == own
            }
        }),
{
}

/// What a bare request loads from the `i`-th candidate directory.
pub open spec fn load_from_candidate<F: FileSystem + ?Sized>(
    fs: &F,
    dirs: Seq<Seq<char>>,
    i: int,
    request: Seq<char>,
) -> Option<Seq<char>> {
    load_spec(fs, normalize_spec(join_spec(dirs[i], request)))
}

proof fn lemma_search_first_hit<F: FileSystem + ?Sized>(fs: &F, dirs: Seq<Seq<char>>, request: Seq<char>)
    ensures
        forall|i: int|
            0 <= i < dirs.len() && #[trigger] load_from_candidate(fs, dirs, i, request) is Some && (forall|j: int|
                0 <= j < i ==> load_from_candidate(fs, dirs, j, request) is None) ==> search_modules_spec(
                fs,
                dirs,
                request,
            ) == load_from_candidate(fs, dirs, i, request),
        (forall|i: int| 0 <= i < dirs.len() ==> #[trigger] load_from_candidate(fs, dirs, i, request) is None)
            ==> search_modules_spec(fs, dirs, request) is None,
    decreases dirs.len(),
{
    if dirs.len() > 0 {
        let d1 = dirs.drop_first();
        lemma_search_first_hit(fs, d1, request);
        assert forall|i: int| 0 <= i < d1.len() implies #[trigger] load_from_candidate(fs, d1, i, request)
            == load_from_candidate(fs, dirs, i + 1, request) by {
            assert(d1[i] == dirs[i + 1]);
        }
        assert forall|i: int|
            0 <= i < dirs.len() && #[trigger] load_from_candidate(fs, dirs, i, request) is Some && (forall|j: int|
                0 <= j < i ==> load_from_candidate(fs, dirs, j, request) is None) implies search_modules_spec(
            fs,
            dirs,
            request,
        ) == load_from_candidate(fs, dirs, i, request) by {
            if i > 0 {
                assert(load_from_candidate(fs, dirs, 0, request) is None);
                assert(load_from_candidate(fs, d1, i - 1, request) == load_from_candidate(fs, dirs, i, request));
                assert forall|j: int| 0 <= j < i - 1 implies load_from_candidate(fs, d1, j, request) is None by {
                    assert(load_from_candidate(fs, d1, j, request) == load_from_candidate(fs, dirs, j + 1, request));
                }
            }
        }
        if forall|i: int| 0 <= i < dirs.len() ==> #[trigger] load_from_candidate(fs, dirs, i, request) is None {
            assert(load_from_candidate(fs, dirs, 0, request) is None);
            assert forall|i: int| 0 <= i < d1.len() implies #[trigger] load_from_candidate(fs, d1, i, request) is None by {
                assert(load_from_candidate(fs, d1, i, request) == load_from_candidate(fs, dirs, i + 1, request));
            }
        }
    }
}

/// A bare request (a package name) resolves through the `node_modules`
/// directories of `node_modules_paths(from_dir)` in order: to what it loads
/// from the first of them from which it loads at all, however many nearer
/// candidates (existing or not) lack it; and to nothing only when it loads
/// from none of them.
pub proof fn lemma_bare_request_first_loading_candidate<F: FileSystem + ?Sized>(
    fs: &F,
    request: Seq<char>,
    from_dir: Seq<char>,
)
    requires
        !is_path_request(request),
    ensures
        ({
            let dirs = node_modules_paths_spec(from_dir);
            &&& forall|i: int|
                0 <= i < dirs.len() && #[trigger] load_from_candidate(fs, dirs, i, request) is Some
                    && (forall|j: int| 0 <= j < i ==> load_from_candidate(fs, dirs, j, request) is None)
                    ==> resolve_spec(fs, request, from_dir) == load_from_candidate(fs, dirs, i, request)
            &&& (forall|i: int| 0 <= i < dirs.len() ==> #[trigger] load_from_candidate(fs, dirs, i, request) is None)
                ==> resolve_spec(fs, request, from_dir) is None
        }),
{
    lemma_search_first_hit(fs, node_modules_paths_spec(from_dir), request);
}

} // verus!
