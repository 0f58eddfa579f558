//! Where storage lives: `<home>/Library/Preferences/<bundleId>/storage.<ext>`,
//! and which bundle the caller is.
//!
//! Paths are texts joined as `PathBuf::join` joins them. What comes from the
//! environment or the disk (variables, the home directory, the executable's
//! place, the contents of `Info.tontoo`) is handed in as plain values.

use vstd::prelude::*;

use crate::error::CoreDataError;
use crate::text::{
    begins_with, chars_of, concat, ends_with_chars, finishes_with, starts_with_chars, string_of,
    strip_chars, trim_white,
};
use crate::value::{Val, Value};

verus! {

broadcast use vstd::string::group_string_axioms;

/// `base` joined with `part`: an absolute `part` replaces `base`, an empty
/// `base` gives `part`, else a `/` goes between them unless `base` already
/// ends with one.
pub open spec fn joined(base: Seq<char>, part: Seq<char>) -> Seq<char> {
    if begins_with(part, "/"@) {
        part
    } else if base.len() == 0 {
        part
    } else if finishes_with(base, "/"@) {
        base + part
    } else {
        base + "/"@ + part
    }
}

/// `PathBuf::join` on texts.
pub fn join_path(base: &str, part: &str) -> (r: String)
    ensures
        r@ == joined(base@, part@),
{
    let pc = chars_of(part);
    let bc = chars_of(base);
    let slash = chars_of("/");
    proof {
        reveal_strlit("/");
    }
    if starts_with_chars(pc.as_slice(), slash.as_slice()) {
        return part.to_string();
    }
    if bc.len() == 0 {
        return part.to_string();
    }
    if ends_with_chars(bc.as_slice(), slash.as_slice()) {
        concat(base, part)
    } else {
        let b = concat(base, "/");
        concat(b.as_str(), part)
    }
}

/// `s` with white space trimmed off both ends.
fn trimmed(s: &str) -> (r: String)
    ensures
        r@ == trim_white(s@),
{
    let cs = chars_of(s);
    let t = strip_chars(cs.as_slice(), true, ' ');
    string_of(t.as_slice())
}

/// The name of the user when `USER` and `USERNAME` are both unset.
pub open spec fn user_fallback(user: Option<Seq<char>>, username: Option<Seq<char>>) -> Seq<char> {
    match user {
        Some(u) => u,
        None => match username {
            Some(u) => u,
            None => "user"@,
        },
    }
}

/// The optional text as mathematics.
pub open spec fn opt_view(o: Option<&str>) -> Option<Seq<char>> {
    match o {
        Some(s) => Some(s@),
        None => None,
    }
}

/// The home directory: `HOME` trimmed when it is an absolute path, else
/// the system's home directory, else `/Users/<user>`.
pub open spec fn home_of(
    home_env: Option<Seq<char>>,
    home_dir: Option<Seq<char>>,
    user: Option<Seq<char>>,
    username: Option<Seq<char>>,
) -> Seq<char> {
    match home_env {
        Some(h) if begins_with(trim_white(h), "/"@) => trim_white(h),
        _ => match home_dir {
            Some(d) => d,
            None => joined("/Users"@, user_fallback(user, username)),
        },
    }
}

/// The home directory (`home_of`), from the `HOME` variable, the system's
/// idea of the home directory, and the `USER` and `USERNAME` variables.
pub fn tontoo_home(
    home_env: Option<&str>,
    home_dir: Option<&str>,
    user: Option<&str>,
    username: Option<&str>,
) -> (r: String)
    ensures
        r@ == home_of(opt_view(home_env), opt_view(home_dir), opt_view(user), opt_view(username)),
{
    proof {
        reveal_strlit("/");
    }
    match home_env {
        Some(h) => {
            let t = trimmed(h);
            let tc = chars_of(t.as_str());
            let slash = chars_of("/");
            if starts_with_chars(tc.as_slice(), slash.as_slice()) {
                return t;
            }
        },
        None => {},
    }
    match home_dir {
        Some(d) => d.to_string(),
        None => {
            let name = match user {
                Some(u) => u,
                None => match username {
                    Some(u) => u,
                    None => "user",
                },
            };
            join_path("/Users", name)
        },
    }
}

/// The preferences root: the override when given, else
/// `<home>/Library/Preferences`.
pub open spec fn preferences_root_of(over: Option<Seq<char>>, home: Seq<char>) -> Seq<char> {
    match over {
        Some(o) => o,
        None => joined(joined(home, "Library"@), "Preferences"@),
    }
}

/// The preferences root, from the `TONTOO_PREFERENCES_ROOT` override and
/// the home directory.
pub fn preferences_root(over: Option<&str>, home: &str) -> (r: String)
    ensures
        r@ == preferences_root_of(opt_view(over), home@),
{
    match over {
        Some(o) => o.to_string(),
        None => {
            let lib = join_path(home, "Library");
            join_path(lib.as_str(), "Preferences")
        },
    }
}

/// The storage directory of a bundle: `<root>/<bundleId>`.
pub fn storage_dir(root: &str, bundle_id: &str) -> (r: String)
    ensures
        r@ == joined(root@, bundle_id@),
{
    join_path(root, bundle_id)
}

/// Every bundle has a storage directory of its own: two bundle ids that
/// are not absolute paths get different directories under any root.
pub proof fn law_storage_dir_per_bundle(root: Seq<char>, a: Seq<char>, b: Seq<char>)
    requires
        a != b,
        !begins_with(a, "/"@),
        !begins_with(b, "/"@),
    ensures
        joined(root, a) != joined(root, b),
{
    if root.len() > 0 && joined(root, a) == joined(root, b) {
        let pre: Seq<char> = if finishes_with(root, "/"@) {
            root
        } else {
            root + "/"@
        };
        assert(joined(root, a) =~= pre + a);
        assert(joined(root, b) =~= pre + b);
        assert((pre + a).skip(pre.len() as int) =~= a);
        assert((pre + b).skip(pre.len() as int) =~= b);
    }
}

/// A storage file of a bundle: `<root>/<bundleId>/storage.<extension>`.
pub fn storage_path(root: &str, bundle_id: &str, extension: &str) -> (r: String)
    ensures
        r@ == joined(joined(root@, bundle_id@), "storage."@ + extension@),
{
    let dir = storage_dir(root, bundle_id);
    let name = concat("storage.", extension);
    join_path(dir.as_str(), name.as_str())
}

/// The `.fico` store of a bundle.
pub fn fico_path(root: &str, bundle_id: &str) -> (r: String)
    ensures
        r@ == joined(joined(root@, bundle_id@), "storage.fico"@),
{
    let r = storage_path(root, bundle_id, "fico");
    proof {
        reveal_strlit("storage.");
        reveal_strlit("fico");
        reveal_strlit("storage.fico");
        assert("storage."@ + "fico"@ =~= "storage.fico"@);
    }
    r
}

/// The SQLite store of a bundle.
pub fn sqlite_path(root: &str, bundle_id: &str) -> (r: String)
    ensures
        r@ == joined(joined(root@, bundle_id@), "storage.sqlite"@),
{
    let r = storage_path(root, bundle_id, "sqlite");
    proof {
        reveal_strlit("storage.");
        reveal_strlit("sqlite");
        reveal_strlit("storage.sqlite");
        assert("storage."@ + "sqlite"@ =~= "storage.sqlite"@);
    }
    r
}

/// The metadata file of a bundle.
pub fn meta_path(root: &str, bundle_id: &str) -> (r: String)
    ensures
        r@ == joined(joined(root@, bundle_id@), "storage.meta"@),
{
    let r = storage_path(root, bundle_id, "meta");
    proof {
        reveal_strlit("storage.");
        reveal_strlit("meta");
        reveal_strlit("storage.meta");
        assert("storage."@ + "meta"@ =~= "storage.meta"@);
    }
    r
}

/// The bundle id that resolution settles on: an explicit id trimmed (an
/// empty one is refused), else the one discovered from `Info.tontoo`, else
/// the `TONTOO_APP_BUNDLE_ID` variable trimmed when not empty; `None`
/// stands for the error, given by `bundle_error`.
pub open spec fn resolved_bundle(
    explicit: Option<Seq<char>>,
    discovered: Option<Seq<char>>,
    env: Option<Seq<char>>,
) -> Option<Seq<char>> {
    match explicit {
        Some(id) => if trim_white(id).len() == 0 {
            None
        } else {
            Some(trim_white(id))
        },
        None => match discovered {
            Some(id) => Some(id),
            None => match env {
                Some(v) if trim_white(v).len() > 0 => Some(trim_white(v)),
                _ => None,
            },
        },
    }
}

/// The error of a resolution that settles on nothing: an explicit empty id
/// is an invalid bundle id, no id at all is `NoBundle`.
pub open spec fn bundle_error(explicit: Option<Seq<char>>, e: CoreDataError) -> bool {
    match explicit {
        Some(_) => e matches CoreDataError::InvalidBundleId(m) && m@ == "empty bundle id"@,
        None => e is NoBundle,
    }
}

/// Resolve the bundle identifier of the caller (see `resolved_bundle`):
/// explicit argument, then discovery, then the environment. Discovery
/// comes before the environment so that the variable cannot spoof it.
pub fn resolve_bundle_id(
    explicit: Option<&str>,
    discovered: Option<&str>,
    env: Option<&str>,
) -> (r: Result<String, CoreDataError>)
    ensures
        match resolved_bundle(opt_view(explicit), opt_view(discovered), opt_view(env)) {
            Some(id) => r matches Ok(s) && s@ == id,
            None => r matches Err(e) && bundle_error(opt_view(explicit), e),
        },
{
    match explicit {
        Some(id) => {
            let t = trimmed(id);
            if chars_of(t.as_str()).len() == 0 {
                return Err(CoreDataError::InvalidBundleId("empty bundle id".to_string()));
            }
            Ok(t)
        },
        None => match discovered {
            Some(id) => Ok(id.to_string()),
            None => match env {
                Some(v) => {
                    let t = trimmed(v);
                    if chars_of(t.as_str()).len() == 0 {
                        Err(CoreDataError::NoBundle)
                    } else {
                        Ok(t)
                    }
                },
                None => Err(CoreDataError::NoBundle),
            },
        },
    }
}

/// The bundle id of the caller, for isolation checks: discovery first,
/// the environment only as a fallback.
pub fn resolve_caller_id(discovered: Option<&str>, env: Option<&str>) -> (r: Result<
    String,
    CoreDataError,
>)
    ensures
        match resolved_bundle(None, opt_view(discovered), opt_view(env)) {
            Some(id) => r matches Ok(s) && s@ == id,
            None => r matches Err(CoreDataError::NoBundle),
        },
{
    resolve_bundle_id(None, discovered, env)
}

/// The `Info.tontoo` file in a directory.
pub open spec fn info_in(dir: Seq<char>) -> Seq<char> {
    joined(dir, "Info.tontoo"@)
}

/// Whether a directory is an app's `App` directory (its last component is `App`).
pub open spec fn named_app(dir: Seq<char>) -> bool {
    dir == "App"@ || finishes_with(dir, "/App"@)
}

/// The candidates the walk up from the executable looks at for the
/// directory `dirs[k]`: its `Info.tontoo`, then, for an `App` directory
/// that has a parent, the parent's.
pub open spec fn walk_step(dirs: Seq<Seq<char>>, k: int) -> Seq<Seq<char>> {
    if named_app(dirs[k]) && k + 1 < dirs.len() {
        seq![info_in(dirs[k]), info_in(dirs[k + 1])]
    } else {
        seq![info_in(dirs[k])]
    }
}

/// The walk's candidates for the first `n` directories.
pub open spec fn walk_candidates(dirs: Seq<Seq<char>>, n: nat) -> Seq<Seq<char>>
    decreases n,
{
    if n == 0 {
        Seq::empty()
    } else {
        walk_candidates(dirs, (n - 1) as nat) + walk_step(dirs, n - 1)
    }
}

/// The near candidates: for each of the first four directories, its
/// `Info.tontoo` (looked at twice, once as the directory and once as the
/// app directory).
pub open spec fn near_candidates(dirs: Seq<Seq<char>>) -> Seq<Seq<char>> {
    let n = if dirs.len() < 4 {
        dirs.len()
    } else {
        4
    };
    Seq::new(2 * n, |i: int| info_in(dirs[i / 2]))
}

/// Every `Info.tontoo` that discovery looks at, in order: the one in the
/// app path given by the launcher, the near candidates, then the walk up
/// every directory above the executable (`dirs`, innermost first).
pub open spec fn discovery_candidates_of(app_path: Option<Seq<char>>, dirs: Seq<Seq<char>>) -> Seq<
    Seq<char>,
> {
    let first: Seq<Seq<char>> = match app_path {
        Some(a) => seq![info_in(a)],
        None => Seq::empty(),
    };
    first + near_candidates(dirs) + walk_candidates(dirs, dirs.len())
}

/// The texts of some strings.
pub open spec fn strings_view(v: Seq<String>) -> Seq<Seq<char>> {
    Seq::new(v.len(), |i: int| v[i]@)
}

/// Whether a directory is an `App` directory.
fn is_app_dir(dir: &str) -> (r: bool)
    ensures
        r == named_app(dir@),
{
    let dc = chars_of(dir);
    let app = chars_of("App");
    let sapp = chars_of("/App");
    proof {
        reveal_strlit("App");
        reveal_strlit("/App");
    }
    crate::text::chars_eq(dc.as_slice(), app.as_slice()) || ends_with_chars(
        dc.as_slice(),
        sapp.as_slice(),
    )
}

/// Every `Info.tontoo` that bundle discovery looks at, in order (see
/// `discovery_candidates_of`): `app_path` is the `TONTOO_APP_PATH`
/// variable, `dirs` the directories above the executable, innermost first.
/// The first of them that holds a bundle id gives the id.
pub fn discovery_candidates(app_path: Option<&str>, dirs: &Vec<String>) -> (r: Vec<String>)
    ensures
        strings_view(r@) == discovery_candidates_of(opt_view(app_path), strings_view(dirs@)),
{
    let ghost dv = strings_view(dirs@);
    let mut out: Vec<String> = Vec::new();
    match app_path {
        Some(a) => {
            out.push(join_path(a, "Info.tontoo"));
        },
        None => {},
    }
    let ghost first = strings_view(out@);
    assert(first == match opt_view(app_path) {
        Some(a) => seq![info_in(a)],
        None => Seq::<Seq<char>>::empty(),
    });
    let n: usize = if dirs.len() < 4 {
        dirs.len()
    } else {
        4
    };
    let mut k: usize = 0;
    while k < n
        invariant
            dv == strings_view(dirs@),
            n <= dirs@.len(),
            n == (if dirs@.len() < 4 { dirs@.len() } else { 4 }),
            k <= n,
            strings_view(out@) == first + Seq::new(2 * k as nat, |i: int| info_in(dv[i / 2])),
        decreases n - k,
    {
        let ghost before = strings_view(out@);
        let p = join_path(dirs[k].as_str(), "Info.tontoo");
        let q = join_path(dirs[k].as_str(), "Info.tontoo");
        out.push(p);
        out.push(q);
        proof {
            let kk = k as int;
            let prev = Seq::new(2 * k as nat, |i: int| info_in(dv[i / 2]));
            let next = Seq::new(2 * (k + 1) as nat, |i: int| info_in(dv[i / 2]));
            assert((2 * kk) / 2 == kk) by (nonlinear_arith);
            assert((2 * kk + 1) / 2 == kk) by (nonlinear_arith);
            assert(next =~= prev.push(info_in(dv[kk])).push(info_in(dv[kk])));
            assert(strings_view(out@) =~= before.push(info_in(dv[kk])).push(info_in(dv[kk])));
        }
        k = k + 1;
        assert(strings_view(out@) =~= first + Seq::new(2 * k as nat, |i: int| info_in(dv[i / 2])));
    }
    let ghost near = strings_view(out@);
    assert(near == first + near_candidates(dv));
    let mut d: usize = 0;
    while d < dirs.len()
        invariant
            dv == strings_view(dirs@),
            d <= dirs@.len(),
            strings_view(out@) == near + walk_candidates(dv, d as nat),
        decreases dirs@.len() - d,
    {
        let ghost before = strings_view(out@);
        out.push(join_path(dirs[d].as_str(), "Info.tontoo"));
        if is_app_dir(dirs[d].as_str()) && d + 1 < dirs.len() {
            out.push(join_path(dirs[d + 1].as_str(), "Info.tontoo"));
        }
        assert(strings_view(out@) =~= before + walk_step(dv, d as int));
        d = d + 1;
        assert(walk_candidates(dv, d as nat) == walk_candidates(dv, (d - 1) as nat) + walk_step(
            dv,
            d - 1,
        ));
        assert(strings_view(out@) =~= near + walk_candidates(dv, d as nat));
    }
    out
}

/// The bundle id an `Info.tontoo` document names: its `bundle_id` entry,
/// when that is a string.
pub open spec fn info_bundle_id(doc: Val) -> Option<Seq<char>> {
    match doc {
        Val::Table(es) => match crate::assoc::lookup(es, "bundle_id"@) {
            Some(Val::Text(s)) => Some(s),
            _ => None,
        },
        _ => None,
    }
}

/// The bundle id an `Info.tontoo` document (read as JSON) names.
pub fn bundle_id_of_info(doc: &Value) -> (r: Option<String>)
    ensures
        match info_bundle_id(doc.view()) {
            Some(s) => r matches Some(t) && t@ == s,
            None => r is None,
        },
{
    match doc.as_table() {
        Some(t) => match t.get("bundle_id") {
            Some(v) => match v.as_str() {
                Some(s) => Some(s.to_string()),
                None => None,
            },
            None => None,
        },
        None => None,
    }
}

} // verus!
