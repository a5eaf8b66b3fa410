//! Where the relay state of a workspace lies.
//!
//! The root is the workspace's: what the override names, else the top of the git
//! repository, else the directory itself. Nothing above it is ever searched.
use vstd::prelude::*;

use crate::text::{has_text, opt_text, opt_view, str_trim, texts, trim};

verus! {

/// The name of the state file.
pub const RELAY_JSON: &'static str = "relay.json";

/// The environment variable that names a root outright.
pub const ENV_RELAY_ROOT: &'static str = "GRAPHIFY_RELAY_ROOT";

/// The path that the override names, and, where it is a file, its directory.
pub struct RootOverride {
    pub path: String,
    pub is_file: bool,
    pub parent: Option<String>,
}

/// The root of a workspace.
pub open spec fn root_of(
    start: Seq<char>,
    given: Option<RootOverride>,
    toplevel: Option<Seq<char>>,
) -> Seq<char> {
    match given {
        Some(o) => if o.is_file && o.parent is Some {
            o.parent->0@
        } else {
            o.path@
        },
        None => match toplevel {
            Some(t) => t,
            None => start,
        },
    }
}

/// The root of a workspace, given the override and the top of the git repository
/// around `start`.
pub fn workspace_root(start: &str, given: &Option<RootOverride>, toplevel: Option<&str>) -> (r:
    String)
    ensures
        r@ == root_of(start@, *given, opt_view(toplevel)),
{
    match given {
        Some(o) => {
            if o.is_file {
                if let Some(p) = &o.parent {
                    return p.clone();
                }
            }
            o.path.clone()
        },
        None => match toplevel {
            Some(t) => t.to_owned(),
            None => start.to_owned(),
        },
    }
}

/// The top of a git repository.
pub open spec fn toplevel_of(stdout: Option<Seq<char>>) -> Option<Seq<char>> {
    match stdout {
        Some(t) => if trim(t).len() == 0 {
            None
        } else {
            Some(trim(t))
        },
        None => None,
    }
}

/// The top of a git repository, from what `git rev-parse --show-toplevel` prints
/// where it succeeds.
pub fn git_toplevel(stdout: Option<&str>) -> (r: Option<String>)
    ensures
        opt_text(r) == toplevel_of(opt_view(stdout)),
{
    match stdout {
        Some(t) => {
            let text = str_trim(t);
            if text.is_empty() {
                None
            } else {
                Some(text.to_owned())
            }
        },
        None => None,
    }
}

/// Whether a directory with these files is a relay root.
pub fn is_relay_root(files: &Vec<String>) -> (r: bool)
    ensures
        r == texts(files@).contains(RELAY_JSON@),
{
    has_text(files, RELAY_JSON)
}

/// The root to bind: that of the workspace, where these files of it hold the state.
pub fn resolve_root(
    start: &str,
    given: &Option<RootOverride>,
    toplevel: Option<&str>,
    files: &Vec<String>,
) -> (r: Option<String>)
    ensures
        opt_text(r) == (if texts(files@).contains(RELAY_JSON@) {
            Some(root_of(start@, *given, opt_view(toplevel)))
        } else {
            None
        }),
{
    if is_relay_root(files) {
        Some(workspace_root(start, given, toplevel))
    } else {
        None
    }
}

/// An override decides alone: from whatever directory of whatever repository, the
/// root is the same.
pub proof fn law_override_decides(
    o: RootOverride,
    a: Seq<char>,
    b: Seq<char>,
    s: Option<Seq<char>>,
    t: Option<Seq<char>>,
)
    ensures
        root_of(a, Some(o), s) == root_of(b, Some(o), t),
{
}

/// Without an override, all directories of a git repository have its top as their
/// root, and outside of one a directory is its own root.
pub proof fn law_git_decides(a: Seq<char>, b: Seq<char>, top: Seq<char>)
    ensures
        root_of(a, None, Some(top)) == root_of(b, None, Some(top)),
        root_of(a, None, None) == a,
{
}

/// What decides the root: the directory of the file that an override names, else what the
/// override names; without one the top of the git repository, else the directory itself.
pub proof fn law_what_decides_the_root(
    start: Seq<char>,
    o: RootOverride,
    top: Option<Seq<char>>,
)
    ensures
        o.is_file && o.parent is Some ==> root_of(start, Some(o), top) == o.parent->0@,
        !o.is_file || o.parent is None ==> root_of(start, Some(o), top) == o.path@,
        top matches Some(t) ==> root_of(start, None, top) == t,
        top is None ==> root_of(start, None, top) == start,
{
}

/// What git prints is the top of the repository, without the white space around it; where it
/// fails or prints only white space, there is none.
pub proof fn law_top_of_a_repository(
    front: Seq<char>,
    path: Seq<char>,
    end: Seq<char>,
)
    requires
        crate::text::is_blank(front),
        crate::text::is_blank(end),
        path.len() > 0 ==> !crate::text::is_space(path[0]) && !crate::text::is_space(path.last()),
    ensures
        path.len() > 0 ==> toplevel_of(Some(front + path + end)) == Some(path),
        path.len() == 0 ==> toplevel_of(Some(front + path + end)) is None,
        toplevel_of(None) is None,
{
    crate::text::law_trim(front, path, end);
}

}
