//! Where the checkpoints are: the flag, the environment, a checkout, the data directory of the
//! platform, in this order.

use vstd::prelude::*;
use crate::scan;

verus! {

/// A variable of the environment whose value is a path.
pub enum Var<P> {
    /// It is not there.
    Unset,
    /// It is there and empty.
    Empty,
    /// It has a value.
    Value(P),
}

/// The variables that matter here.
pub struct Environment<P> {
    /// `BABINIKU_CKPT_DIR`.
    pub babiniku_ckpt_dir: Var<P>,
    /// `XDG_DATA_HOME`.
    pub xdg_data_home: Var<P>,
    /// `HOME`.
    pub home: Var<P>,
    /// `APPDATA`.
    pub appdata: Var<P>,
}

/// A directory: components below a path, or below the working directory.
pub struct Place<P> {
    /// The path.
    pub root: Option<P>,
    /// The components below it.
    pub parts: Vec<&'static str>,
}

impl<P> Place<P> {
    /// Whether the directory has the given path and components.
    pub open spec fn is(&self, root: Option<P>, parts: Seq<Seq<char>>) -> bool {
        self.root == root && scan::views(self.parts@) == parts
    }
}

/// A list of one component.
fn one(a: &'static str) -> (v: Vec<&'static str>)
    ensures
        scan::views(v@) == seq![a@],
{
    let mut v: Vec<&'static str> = Vec::new();
    v.push(a);
    assert(scan::views(v@) =~= seq![a@]);
    v
}

/// A list of two components.
fn two(a: &'static str, b: &'static str) -> (v: Vec<&'static str>)
    ensures
        scan::views(v@) == seq![a@, b@],
{
    let mut v: Vec<&'static str> = Vec::new();
    v.push(a);
    v.push(b);
    assert(scan::views(v@) =~= seq![a@, b@]);
    v
}

/// A list of four components.
fn four(a: &'static str, b: &'static str, c: &'static str, d: &'static str) -> (v: Vec<
    &'static str,
>)
    ensures
        scan::views(v@) == seq![a@, b@, c@, d@],
{
    let mut v: Vec<&'static str> = Vec::new();
    v.push(a);
    v.push(b);
    v.push(c);
    v.push(d);
    assert(scan::views(v@) =~= seq![a@, b@, c@, d@]);
    v
}

/// The directory of the platform `os` as path and components; the relative `ckpt` where the
/// environment does not say where data goes.
pub open spec fn platform_place<P>(env: Environment<P>, os: Seq<char>) -> (Option<P>, Seq<Seq<char>>) {
    let none = (None, seq!["ckpt"@]);
    if os == "windows"@ {
        match env.appdata {
            Var::Value(p) => (Some(p), seq!["babiniku"@, "ckpt"@]),
            _ => none,
        }
    } else if os == "macos"@ {
        match env.home {
            Var::Value(p) => (
                Some(p),
                seq!["Library"@, "Application Support"@, "babiniku"@, "ckpt"@],
            ),
            _ => none,
        }
    } else {
        match (env.xdg_data_home, env.home) {
            (Var::Value(p), _) => (Some(p), seq!["babiniku"@, "ckpt"@]),
            (_, Var::Value(p)) => (Some(p), seq![".local"@, "share"@, "babiniku"@, "ckpt"@]),
            _ => none,
        }
    }
}

/// The directory as path and components.
pub open spec fn resolved<P>(
    flag: Option<P>,
    env: Environment<P>,
    repo_ckpt_exists: bool,
    os: Seq<char>,
) -> (Option<P>, Seq<Seq<char>>) {
    match (flag, env.babiniku_ckpt_dir) {
        (Some(p), _) => (Some(p), seq![]),
        (None, Var::Value(p)) => (Some(p), seq![]),
        _ => if repo_ckpt_exists {
            (None, seq!["ckpt"@])
        } else {
            platform_place(env, os)
        },
    }
}

/// The directory of the platform `os`.
pub fn platform_default_for<P>(env: Environment<P>, os: &str) -> (d: Place<P>)
    ensures
        d.is(platform_place(env, os@).0, platform_place(env, os@).1),
{
    if scan::same(os, "windows") {
        match env.appdata {
            Var::Value(p) => Place { root: Some(p), parts: two("babiniku", "ckpt") },
            _ => Place { root: None, parts: one("ckpt") },
        }
    } else if scan::same(os, "macos") {
        match env.home {
            Var::Value(p) => Place {
                root: Some(p),
                parts: four("Library", "Application Support", "babiniku", "ckpt"),
            },
            _ => Place { root: None, parts: one("ckpt") },
        }
    } else {
        match env.xdg_data_home {
            Var::Value(p) => Place { root: Some(p), parts: two("babiniku", "ckpt") },
            _ => match env.home {
                Var::Value(p) => Place {
                    root: Some(p),
                    parts: four(".local", "share", "babiniku", "ckpt"),
                },
                _ => Place { root: None, parts: one("ckpt") },
            },
        }
    }
}

/// The directory of the checkpoints: what the flag says, else what the variable says, else
/// `ckpt` where it exists, else the directory of the platform.
pub fn resolve_from<P>(
    flag: Option<P>,
    env: Environment<P>,
    repo_ckpt_exists: bool,
    os: &str,
) -> (d: Place<P>)
    ensures
        d.is(
            resolved(flag, env, repo_ckpt_exists, os@).0,
            resolved(flag, env, repo_ckpt_exists, os@).1,
        ),
{
    if let Some(p) = flag {
        let d = Place { root: Some(p), parts: Vec::new() };
        assert(scan::views(d.parts@) =~= seq![]);
        return d;
    }
    let Environment { babiniku_ckpt_dir, xdg_data_home, home, appdata } = env;
    if let Var::Value(p) = babiniku_ckpt_dir {
        let d = Place { root: Some(p), parts: Vec::new() };
        assert(scan::views(d.parts@) =~= seq![]);
        return d;
    }
    if repo_ckpt_exists {
        return Place { root: None, parts: one("ckpt") };
    }
    platform_default_for(
        Environment { babiniku_ckpt_dir: Var::Unset, xdg_data_home, home, appdata },
        os,
    )
}

/// Whether the environment has a variable for where data goes on the platform `os`, be it empty.
pub open spec fn speaks_of_data<P>(env: Environment<P>, os: Seq<char>) -> bool {
    if os == "windows"@ {
        env.appdata !is Unset
    } else if os == "macos"@ {
        env.home !is Unset
    } else {
        env.xdg_data_home !is Unset || env.home !is Unset
    }
}

/// The directory that downloads go to: `ckpt` where it exists, else the directory of the platform
/// as path and components. Without any variable for where data goes, there is none.
pub open spec fn download_place<P>(
    local_exists: bool,
    env: Environment<P>,
    os: Seq<char>,
) -> Option<(Option<P>, Seq<Seq<char>>)> {
    if local_exists {
        Some((None, seq!["ckpt"@]))
    } else if speaks_of_data(env, os) {
        Some(platform_place(env, os))
    } else {
        None
    }
}

/// Whether a variable is there, be it empty.
fn is_set<P>(v: &Var<P>) -> (b: bool)
    ensures
        b == (v !is Unset),
{
    match v {
        Var::Unset => false,
        _ => true,
    }
}

/// The directory that downloads go to: where the program looks for them. There is none if `ckpt`
/// does not exist and no variable for where data goes is there; one that is there but empty is
/// passed over as the program passes over it.
pub fn default_ckpt_dir<P>(local_exists: bool, env: Environment<P>, os: &str) -> (d: Option<
    Place<P>,
>)
    ensures
        ({
            let want = download_place(local_exists, env, os@);
            &&& d is Some <==> want is Some
            &&& d is Some ==> d->0.is((want->0).0, (want->0).1)
        }),
{
    if local_exists {
        return Some(Place { root: None, parts: one("ckpt") });
    }
    let spoken: bool = if scan::same(os, "windows") {
        is_set(&env.appdata)
    } else if scan::same(os, "macos") {
        is_set(&env.home)
    } else {
        is_set(&env.xdg_data_home) || is_set(&env.home)
    };
    if spoken {
        Some(platform_default_for(env, os))
    } else {
        None
    }
}

/// Install, fetch and run need no paths: without flag and variable of its own, the program looks
/// where downloads go, wherever they go anywhere.
pub proof fn law_downloads_are_found<P>(env: Environment<P>, local_exists: bool, os: Seq<char>)
    requires
        env.babiniku_ckpt_dir !is Value,
        download_place(local_exists, env, os) is Some,
    ensures
        download_place(local_exists, env, os) == Some(resolved(None, env, local_exists, os)),
{
}

} // verus!
