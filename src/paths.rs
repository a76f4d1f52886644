//! Directory and file locations, computed from plain values that the caller
//! gathers from the environment and the file system.
use vstd::prelude::*;
use vstd::string::*;
use etcetera::base_strategy::BaseStrategy;

verus! {

/// The path obtained by pushing `rel` onto `base` with `/` as separator:
/// an absolute `rel` replaces `base`, and no separator is doubled.
pub open spec fn joined(base: Seq<char>, rel: Seq<char>) -> Seq<char> {
    if rel.len() > 0 && rel[0] == '/' {
        rel
    } else if base.len() == 0 {
        rel
    } else if base.last() == '/' {
        base + rel
    } else {
        base + seq!['/'] + rel
    }
}

pub open spec fn opt_view(o: Option<String>) -> Option<Seq<char>> {
    match o {
        Some(s) => Some(s@),
        None => None,
    }
}

pub open spec fn views(v: Seq<String>) -> Seq<Seq<char>> {
    v.map_values(|s: String| s@)
}

/// Pushes `rel` onto `base`.
pub fn join_path(base: &str, rel: &str) -> (r: String)
    ensures
        r@ == joined(base@, rel@),
{
    let rn = rel.unicode_len();
    if rn > 0 && rel.get_char(0) == '/' {
        return rel.to_owned();
    }
    let bn = base.unicode_len();
    if bn == 0 {
        return rel.to_owned();
    }
    let mut r = base.to_owned();
    if base.get_char(bn - 1) != '/' {
        proof {
            reveal_strlit("/");
        }
        r.append("/");
    }
    r.append(rel);
    r
}

/// Name of the subdirectory that holds this tool's files under a base directory.
pub open spec fn app_name() -> Seq<char> {
    seq!['b', 'a', 'l', 'p', 'a', 'n']
}

/// Name of the runtime asset directory.
pub open spec fn runtime_name() -> Seq<char> {
    seq!['r', 'u', 'n', 't', 'i', 'm', 'e']
}

/// Which of the tool's base directories is meant.
pub enum StrategyType {
    Config,
    Cache,
}

/// Relies on etcetera::choose_base_strategy, BaseStrategy::config_dir and
/// BaseStrategy::cache_dir: the user's configuration and cache directories
/// by the host's convention, when the home directory can be found. The
/// result depends on the environment, so nothing is promised of it.
#[verifier::external_body]
fn base_dirs() -> (r: Option<(String, String)>) {
    etcetera::base_strategy::choose_base_strategy().ok().map(
        |s| {
            (
                s.config_dir().to_string_lossy().into_owned(),
                s.cache_dir().to_string_lossy().into_owned(),
            )
        },
    )
}

/// The directory chosen from an explicit override and the convention's base
/// directory: the override wins; else the tool's subdirectory of the base;
/// with neither, none.
pub open spec fn resolved_dir(env_override: Option<Seq<char>>, base: Option<Seq<char>>) -> Option<
    Seq<char>,
> {
    match env_override {
        Some(d) => Some(d),
        None => match base {
            Some(b) => Some(joined(b, app_name())),
            None => None,
        },
    }
}

/// Chooses a directory from an override and the convention's base directory.
pub fn resolve_dir(env_override: Option<String>, base: Option<String>) -> (r: Option<String>)
    ensures
        opt_view(r) == resolved_dir(opt_view(env_override), opt_view(base)),
{
    match env_override {
        Some(d) => Some(d),
        None => match base {
            Some(b) => {
                proof {
                    reveal_strlit("balpan");
                }
                Some(join_path(b.as_str(), "balpan"))
            },
            None => None,
        },
    }
}

/// The convention's base directory for the given kind, out of the pair
/// (configuration base, cache base).
pub open spec fn base_of(target: StrategyType, bases: Option<(String, String)>) -> Option<Seq<char>> {
    match bases {
        Some((config, cache)) => match target {
            StrategyType::Config => Some(config@),
            StrategyType::Cache => Some(cache@),
        },
        None => None,
    }
}

/// The directory of the given kind, from an override and the convention's
/// pair of base directories (configuration, cache), when it resolved.
pub fn dir_from_bases(target: StrategyType, env_override: Option<String>, bases: Option<(String, String)>) -> (r: Option<String>)
    ensures
        opt_view(r) == resolved_dir(opt_view(env_override), base_of(target, bases)),
{
    let base = match bases {
        Some((config, cache)) => match target {
            StrategyType::Config => Some(config),
            StrategyType::Cache => Some(cache),
        },
        None => None,
    };
    resolve_dir(env_override, base)
}

/// The directory of the given kind: the override when there is one, else the
/// tool's subdirectory of the host convention's directory of that kind, or
/// none when the convention cannot be resolved on this host.
pub fn get_dir(target: StrategyType, env_override: Option<String>) -> (r: Option<String>)
    ensures
        env_override is Some ==> r == env_override,
        env_override is None ==> (r is None || exists|b: Seq<char>|
            opt_view(r) == resolved_dir(None, Some(b))),
{
    match env_override {
        Some(d) => Some(d),
        None => dir_from_bases(target, None, base_dirs()),
    }
}

/// The configuration directory (see `get_dir`).
pub fn config_dir(env_override: Option<String>) -> (r: Option<String>)
    ensures
        env_override is Some ==> r == env_override,
        env_override is None ==> (r is None || exists|b: Seq<char>|
            opt_view(r) == resolved_dir(None, Some(b))),
{
    get_dir(StrategyType::Config, env_override)
}

/// The cache directory (see `get_dir`).
pub fn cache_dir(env_override: Option<String>) -> (r: Option<String>)
    ensures
        env_override is Some ==> r == env_override,
        env_override is None ==> (r is None || exists|b: Seq<char>|
            opt_view(r) == resolved_dir(None, Some(b))),
{
    get_dir(StrategyType::Cache, env_override)
}

/// The runtime directories from highest to lowest priority: the runtime
/// directory beside a source checkout, if any; the one under the
/// configuration directory; the explicit override, if any; the one beside
/// the running program.
pub open spec fn runtime_dirs_of(
    checkout_root: Option<Seq<char>>,
    config_dir: Seq<char>,
    runtime_override: Option<Seq<char>>,
    exe_dir: Seq<char>,
) -> Seq<Seq<char>> {
    let first: Seq<Seq<char>> = match checkout_root {
        Some(c) => seq![joined(c, runtime_name())],
        None => Seq::empty(),
    };
    let third: Seq<Seq<char>> = match runtime_override {
        Some(o) => seq![o],
        None => Seq::empty(),
    };
    first + seq![joined(config_dir, runtime_name())] + third + seq![joined(exe_dir, runtime_name())]
}

/// Lists the runtime directories in priority order.
pub fn runtime_dirs(
    checkout_root: Option<String>,
    config_dir: &str,
    runtime_override: Option<String>,
    exe_dir: &str,
) -> (r: Vec<String>)
    ensures
        views(r@) == runtime_dirs_of(opt_view(checkout_root), config_dir@, opt_view(runtime_override), exe_dir@),
        r@.len() >= 2,
{
    proof {
        reveal_strlit("runtime");
        assert("runtime"@ =~= runtime_name());
    }
    let ghost cr = opt_view(checkout_root);
    let ghost ov = opt_view(runtime_override);
    let ghost first: Seq<Seq<char>> = match cr {
        Some(c) => seq![joined(c, runtime_name())],
        None => Seq::empty(),
    };
    let ghost third: Seq<Seq<char>> = match ov {
        Some(o) => seq![o],
        None => Seq::empty(),
    };
    let mut dirs: Vec<String> = Vec::new();
    match checkout_root {
        Some(c) => {
            dirs.push(join_path(c.as_str(), "runtime"));
        },
        None => {},
    }
    assert(views(dirs@) =~= first);
    dirs.push(join_path(config_dir, "runtime"));
    assert(views(dirs@) =~= first + seq![joined(config_dir@, runtime_name())]);
    match runtime_override {
        Some(o) => {
            dirs.push(o);
        },
        None => {},
    }
    assert(views(dirs@) =~= first + seq![joined(config_dir@, runtime_name())] + third);
    dirs.push(join_path(exe_dir, "runtime"));
    assert(views(dirs@) =~= runtime_dirs_of(cr, config_dir@, ov, exe_dir@));
    dirs
}

/// `i` is the first index at which `flags` holds.
pub open spec fn is_first(flags: Seq<bool>, i: int) -> bool {
    &&& 0 <= i < flags.len()
    &&& flags[i]
    &&& forall|j: int| 0 <= j < i ==> !flags[j]
}

/// Looks for `rel` under the runtime directories in priority order, where
/// `exists[i]` tells whether `rel` exists under `dirs[i]`: the first that
/// exists, or none.
pub fn find_runtime_file(dirs: &Vec<String>, rel: &str, exists: &Vec<bool>) -> (r: Option<String>)
    requires
        exists@.len() == dirs@.len(),
    ensures
        match r {
            Some(p) => exists|i: int| is_first(exists@, i) && p@ == joined(dirs@[i]@, rel@),
            None => forall|i: int| 0 <= i < exists@.len() ==> !exists@[i],
        },
{
    let mut i: usize = 0;
    while i < dirs.len()
        invariant
            exists@.len() == dirs@.len(),
            i <= dirs@.len(),
            forall|j: int| 0 <= j < i ==> !exists@[j],
        decreases dirs@.len() - i,
    {
        if exists[i] {
            let p = join_path(dirs[i].as_str(), rel);
            assert(is_first(exists@, i as int));
            return Some(p);
        }
        i = i + 1;
    }
    None
}

/// The path of `rel` under the first runtime directory where it exists;
/// failing that, under the lowest-priority directory; with no directories,
/// the empty path.
pub fn runtime_file(dirs: &Vec<String>, rel: &str, exists: &Vec<bool>) -> (r: String)
    requires
        exists@.len() == dirs@.len(),
    ensures
        (exists|i: int| 0 <= i < exists@.len() && exists@[i]) ==> (exists|i: int|
            is_first(exists@, i) && r@ == joined(dirs@[i]@, rel@)),
        (forall|i: int| 0 <= i < exists@.len() ==> !exists@[i]) ==> r@ == (if dirs@.len() > 0 {
            joined(dirs@.last()@, rel@)
        } else {
            Seq::<char>::empty()
        }),
{
    match find_runtime_file(dirs, rel, exists) {
        Some(p) => p,
        None => {
            if dirs.len() > 0 {
                join_path(dirs[dirs.len() - 1].as_str(), rel)
            } else {
                String::new()
            }
        },
    }
}

/// The main configuration file: the one given, else `config.toml` in the
/// configuration directory.
pub fn config_file(specified: Option<String>, config_dir: &str) -> (r: String)
    ensures
        r@ == match specified {
            Some(f) => f@,
            None => joined(config_dir@, "config.toml"@),
        },
{
    match specified {
        Some(f) => f,
        None => join_path(config_dir, "config.toml"),
    }
}

/// The workspace's configuration file, `.balpan/config.toml` under its root.
pub fn workspace_config_file(workspace: &str) -> (r: String)
    ensures
        r@ == joined(joined(workspace@, ".balpan"@), "config.toml"@),
{
    let d = join_path(workspace, ".balpan");
    join_path(d.as_str(), "config.toml")
}

/// The language configuration file in the configuration directory.
pub fn lang_config_file(config_dir: &str) -> (r: String)
    ensures
        r@ == joined(config_dir@, "languages.toml"@),
{
    join_path(config_dir, "languages.toml")
}

/// The log file in the cache directory.
pub fn log_file(cache_dir: &str) -> (r: String)
    ensures
        r@ == joined(cache_dir@, "balpan.log"@),
{
    join_path(cache_dir, "balpan.log")
}

/// The workspace root: the first of `ancestors` (the current directory
/// first, then upward) that holds a version-control or tool marker, paired
/// with `false`; when none does, the current directory paired with `true`.
pub fn find_workspace(cwd: &str, ancestors: &Vec<String>, has_marker: &Vec<bool>) -> (r: (
    String,
    bool,
))
    requires
        has_marker@.len() == ancestors@.len(),
    ensures
        !r.1 <==> exists|i: int| 0 <= i < has_marker@.len() && has_marker@[i],
        !r.1 ==> exists|i: int| is_first(has_marker@, i) && r.0@ == ancestors@[i]@,
        r.1 ==> r.0@ == cwd@,
{
    let mut i: usize = 0;
    while i < ancestors.len()
        invariant
            has_marker@.len() == ancestors@.len(),
            i <= ancestors@.len(),
            forall|j: int| 0 <= j < i ==> !has_marker@[j],
        decreases ancestors@.len() - i,
    {
        if has_marker[i] {
            assert(is_first(has_marker@, i as int));
            return (ancestors[i].clone(), false);
        }
        i = i + 1;
    }
    (cwd.to_owned(), true)
}

/// The runtime directory list has at least two entries, and equal inputs
/// give equal lists.
pub proof fn lemma_runtime_dirs_stable(
    checkout_root: Option<Seq<char>>,
    config_dir: Seq<char>,
    runtime_override: Option<Seq<char>>,
    exe_dir: Seq<char>,
    checkout_root2: Option<Seq<char>>,
    config_dir2: Seq<char>,
    runtime_override2: Option<Seq<char>>,
    exe_dir2: Seq<char>,
)
    ensures
        runtime_dirs_of(checkout_root, config_dir, runtime_override, exe_dir).len() >= 2,
        (checkout_root, config_dir, runtime_override, exe_dir) == (checkout_root2, config_dir2, runtime_override2, exe_dir2)
            ==> runtime_dirs_of(checkout_root, config_dir, runtime_override, exe_dir)
            == runtime_dirs_of(checkout_root2, config_dir2, runtime_override2, exe_dir2),
{
}

} // verus!
