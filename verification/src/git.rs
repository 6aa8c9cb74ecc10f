//! Repository handle: the discovered working-tree root and shared metadata
//! directory, and the derivations the handle supports. The underlying
//! version-control tool is invoked by the caller; this module holds the
//! logic that interprets what the tool and the metadata files report.

use vstd::prelude::*;
use vstd::string::StrSliceExecFns;
use crate::text::{join_spec, join_path, trim_spec, trim_str, s_sub, str_eq_str};

verus! {

/// A discovered repository: the working-tree top level and the shared
/// metadata directory, both as absolute path strings, fixed at
/// construction.
pub struct GitRepo {
    pub root: String,
    pub common_dir: String,
}

/// The view of an optional borrowed string.
pub open spec fn opt_view(o: Option<&str>) -> Option<Seq<char>> {
    match o {
        Some(s) => Some(s@),
        None => None,
    }
}

/// The symbolic-reference prefix a `HEAD` file carries when it points at a
/// local branch.
pub open spec fn head_ref_prefix() -> Seq<char> {
    seq!['r', 'e', 'f', ':', ' ', 'r', 'e', 'f', 's', '/', 'h', 'e', 'a', 'd', 's', '/']
}

/// The branch name a `HEAD` file designates, when its contents are a
/// symbolic reference to `refs/heads/<name>`; the name is trimmed.
pub open spec fn parse_head_ref_spec(s: Seq<char>) -> Option<Seq<char>> {
    if s.len() >= 16 && s.take(16) == head_ref_prefix() {
        Some(trim_spec(s.skip(16)))
    } else {
        None
    }
}

pub open spec fn main_seq() -> Seq<char> {
    seq!['m', 'a', 'i', 'n']
}

pub open spec fn master_seq() -> Seq<char> {
    seq!['m', 'a', 's', 't', 'e', 'r']
}

/// Three-tier default-branch detection: the branch `HEAD` symbolically
/// refers to, else `main` if it exists locally, else `master` if it does,
/// else nothing.
pub open spec fn default_branch_spec(
    head: Option<Seq<char>>,
    main_exists: bool,
    master_exists: bool,
) -> Option<Seq<char>> {
    let from_head = match head {
        Some(h) => parse_head_ref_spec(h),
        None => None,
    };
    match from_head {
        Some(b) => Some(b),
        None => if main_exists {
            Some(main_seq())
        } else if master_exists {
            Some(master_seq())
        } else {
            None
        },
    }
}

/// The branch name designated by the given `HEAD` file contents, if any.
pub fn parse_head_ref(contents: &str) -> (r: Option<String>)
    ensures
        match r {
            Some(b) => parse_head_ref_spec(contents@) == Some(b@),
            None => parse_head_ref_spec(contents@) is None,
        },
{
    let n: usize = contents.unicode_len();
    if n < 16 {
        return None;
    }
    let pre = s_sub(contents, 0, 16);
    proof {
        reveal_strlit("ref: refs/heads/");
        assert(("ref: refs/heads/")@ =~= head_ref_prefix());
        assert(contents@.take(16) =~= pre@);
    }
    if !str_eq_str(pre.as_str(), "ref: refs/heads/") {
        return None;
    }
    let rest = s_sub(contents, 16, n);
    proof {
        assert(contents@.skip(16) =~= rest@);
    }
    Some(trim_str(rest.as_str()))
}

impl GitRepo {
    /// Builds the handle from the raw outputs of the underlying tool's
    /// top-level and common-directory queries: both are trimmed, and a
    /// relative common directory is resolved against the root.
    pub fn from_query_output(toplevel_raw: &str, common_raw: &str) -> (r: GitRepo)
        ensures
            r.root@ == trim_spec(toplevel_raw@),
            r.common_dir@ == join_spec(trim_spec(toplevel_raw@), trim_spec(common_raw@)),
    {
        let root = trim_str(toplevel_raw);
        let common = trim_str(common_raw);
        let common_dir = join_path(root.as_str(), common.as_str());
        GitRepo { root, common_dir }
    }

    /// The configured `origin` remote URL, given the raw output of the
    /// underlying tool's get-url query: a failed query stays absent, a
    /// successful one is trimmed.
    pub fn origin_url(&self, raw: Option<&str>) -> (r: Option<String>)
        ensures
            r is Some <==> raw is Some,
            raw is Some ==> r->0@ == trim_spec(raw->0@),
    {
        match raw {
            Some(s) => Some(trim_str(s)),
            None => None,
        }
    }

    /// The repository's default branch, given the contents of the shared
    /// metadata directory's `HEAD` file (if readable) and whether local
    /// `main` and `master` branches exist.
    pub fn default_branch(
        &self,
        head_contents: Option<&str>,
        main_exists: bool,
        master_exists: bool,
    ) -> (r: Option<String>)
        ensures
            match r {
                Some(b) => default_branch_spec(opt_view(head_contents), main_exists, master_exists)
                    == Some(b@),
                None => default_branch_spec(opt_view(head_contents), main_exists, master_exists)
                    is None,
            },
    {
        match head_contents {
            Some(h) => {
                match parse_head_ref(h) {
                    Some(b) => {
                        return Some(b);
                    },
                    None => {},
                }
            },
            None => {},
        }
        if main_exists {
            let b = "main".to_owned();
            proof {
                reveal_strlit("main");
                assert(("main")@ =~= main_seq());
            }
            return Some(b);
        }
        if master_exists {
            let b = "master".to_owned();
            proof {
                reveal_strlit("master");
                assert(("master")@ =~= master_seq());
            }
            return Some(b);
        }
        None
    }
}

} // verus!
