//! Layered configuration: the `Config` record and its defaults, the
//! reconciliation of the configured base branch against the repository,
//! remote-URL normalization, the per-repository identifier, and the
//! workspace-path derivation.

use vstd::prelude::*;
use vstd::string::StrSliceExecFns;
use crate::git::{GitRepo, main_seq, opt_view};
use crate::digest::{hex_of, sha256_of, sha256_str, hex_encode, take_bytes};
use crate::text::{
    after_last_slash, after_last_slash_str, join_path, join_spec, lower_seq, replace_spec,
    replace_str, s_sub, str_eq_str, strip_slashes_spec, strip_slashes_str, to_lower_str,
    trim_spec, trim_str,
};

verus! {

/// The settings record: schema version, base branch, workspace-root
/// template, layout discriminator, and the optional open command.
#[derive(Debug, Clone)]
pub struct Config {
    pub version: u32,
    pub base: String,
    pub root: String,
    pub layout: String,
    pub open_cmd: Option<String>,
}

/// The mathematical view of a [`Config`].
#[verifier::ext_equal]
pub struct ConfigV {
    pub version: u32,
    pub base: Seq<char>,
    pub root: Seq<char>,
    pub layout: Seq<char>,
    pub open_cmd: Option<Seq<char>>,
}

impl View for Config {
    type V = ConfigV;

    open spec fn view(&self) -> ConfigV {
        ConfigV {
            version: self.version,
            base: self.base@,
            root: self.root@,
            layout: self.layout@,
            open_cmd: match self.open_cmd {
                Some(s) => Some(s@),
                None => None,
            },
        }
    }
}

pub open spec fn default_root_seq() -> Seq<char> {
    seq!['~', '/', '.', 'w', 'o', 'r', 'k', 't', 'y', '/', '{', 'r', 'e', 'p', 'o', '}', '-', '{', 'i', 'd', '}']
}

pub open spec fn flat_seq() -> Seq<char> {
    seq!['f', 'l', 'a', 't']
}

/// The defaults: schema version 1, base branch `main`, root template
/// `~/.workty/{repo}-{id}`, flat layout, no open command.
pub open spec fn default_config_spec() -> ConfigV {
    ConfigV {
        version: 1,
        base: main_seq(),
        root: default_root_seq(),
        layout: flat_seq(),
        open_cmd: None,
    }
}

impl Default for Config {
    fn default() -> (r: Self)
        ensures
            r@ == default_config_spec(),
    {
        let c = Config {
            version: 1,
            base: "main".to_owned(),
            root: "~/.workty/{repo}-{id}".to_owned(),
            layout: "flat".to_owned(),
            open_cmd: None,
        };
        proof {
            reveal_strlit("main");
            reveal_strlit("~/.workty/{repo}-{id}");
            reveal_strlit("flat");
            assert(("main")@ =~= main_seq());
            assert(("~/.workty/{repo}-{id}")@ =~= default_root_seq());
            assert(("flat")@ =~= flat_seq());
            assert(c@ =~= default_config_spec());
        }
        c
    }
}

/// True when `s` ends with the four characters `.git`.
pub open spec fn has_git_suffix(s: Seq<char>) -> bool {
    s.len() >= 4 && s[s.len() - 4] == '.' && s[s.len() - 3] == 'g' && s[s.len() - 2] == 'i'
        && s[s.len() - 1] == 't'
}

/// Trailing `.git` suffixes removed.
pub open spec fn strip_git_suffixes(s: Seq<char>) -> Seq<char>
    decreases s.len(),
{
    if has_git_suffix(s) {
        strip_git_suffixes(s.take(s.len() - 4))
    } else {
        s
    }
}

/// Remote-URL normalization: surrounding whitespace trimmed, trailing
/// slashes removed, trailing `.git` suffixes removed, then the whole
/// string ASCII lower-cased.
pub open spec fn normalize_spec(s: Seq<char>) -> Seq<char> {
    lower_seq(strip_git_suffixes(strip_slashes_spec(trim_spec(s))))
}

/// Normalizes a remote URL, per [`normalize_spec`].
pub fn normalize_url(url: &str) -> (r: String)
    ensures
        r@ == normalize_spec(url@),
{
    let t = trim_str(url);
    let u = strip_slashes_str(t.as_str());
    let n: usize = u.as_str().unicode_len();
    let mut end: usize = n;
    proof {
        assert(u@.take(n as int) =~= u@);
    }
    while end >= 4 && u.as_str().get_char(end - 4) == '.' && u.as_str().get_char(end - 3) == 'g'
        && u.as_str().get_char(end - 2) == 'i' && u.as_str().get_char(end - 1) == 't'
        invariant
            end <= n,
            n == u@.len(),
            strip_git_suffixes(u@) == strip_git_suffixes(u@.take(end as int)),
        decreases end,
    {
        proof {
            let t2 = u@.take(end as int);
            assert(has_git_suffix(t2));
            assert(t2.take(t2.len() - 4) =~= u@.take(end as int - 4));
        }
        end -= 4;
    }
    proof {
        let t2 = u@.take(end as int);
        assert(!has_git_suffix(t2));
        assert(strip_git_suffixes(t2) == t2);
    }
    let v = s_sub(u.as_str(), 0, end);
    to_lower_str(v.as_str())
}

/// The string the repository identifier is derived from: the origin
/// remote URL when one is configured, else the shared metadata directory
/// path.
pub open spec fn id_input_spec(origin: Option<Seq<char>>, common_dir: Seq<char>) -> Seq<char> {
    match origin {
        Some(u) => u,
        None => common_dir,
    }
}

/// The repository identifier: the first four bytes of the SHA-256 digest
/// of the normalized input, in lower-case hex (eight characters).
pub open spec fn repo_id_spec(input: Seq<char>) -> Seq<char> {
    hex_of(sha256_of(normalize_spec(input)).take(4))
}

/// Computes the repository identifier, given the origin remote URL the
/// caller queried (if any).
pub fn compute_repo_id(repo: &GitRepo, origin: Option<&str>) -> (r: String)
    ensures
        r@ == repo_id_spec(id_input_spec(opt_view(origin), repo.common_dir@)),
{
    let input: String = match origin {
        Some(u) => u.to_owned(),
        None => repo.common_dir.clone(),
    };
    let normalized = normalize_url(input.as_str());
    let digest = sha256_str(normalized.as_str());
    let first = take_bytes(&digest, 4);
    hex_encode(first.as_slice())
}

/// A leading `~` expanded to the home directory: `~` alone becomes the
/// home directory itself, `~/rest` becomes the home directory joined with
/// `rest`; anything else, or an unknown home directory, is left unchanged.
pub open spec fn expand_tilde_spec(p: Seq<char>, home: Option<Seq<char>>) -> Seq<char> {
    if p == seq!['~'] {
        match home {
            Some(h) => h,
            None => p,
        }
    } else if p.len() >= 2 && p[0] == '~' && p[1] == '/' {
        match home {
            Some(h) => join_spec(h, p.skip(2)),
            None => p,
        }
    } else {
        p
    }
}

/// Expands a leading `~`, per [`expand_tilde_spec`]; `home` is the
/// resolved home directory, if it could be determined.
pub fn expand_tilde(path: &str, home: Option<&str>) -> (r: String)
    ensures
        r@ == expand_tilde_spec(path@, opt_view(home)),
{
    let n: usize = path.unicode_len();
    if n == 1 && path.get_char(0) == '~' {
        proof {
            assert(path@ =~= seq!['~']);
        }
        return match home {
            Some(h) => h.to_owned(),
            None => path.to_owned(),
        };
    }
    proof {
        if path@ == seq!['~'] {
            assert(path@.len() == 1 && path@[0] == '~');
        }
    }
    if n >= 2 && path.get_char(0) == '~' && path.get_char(1) == '/' {
        return match home {
            Some(h) => {
                let rest = s_sub(path, 2, n);
                join_path(h, rest.as_str())
            },
            None => path.to_owned(),
        };
    }
    path.to_owned()
}

pub open spec fn repo_seq() -> Seq<char> {
    seq!['r', 'e', 'p', 'o']
}

/// The final path segment of the repository root, or the literal `repo`
/// when the root has no nameable segment.
pub open spec fn repo_name_spec(root: Seq<char>) -> Seq<char> {
    let seg = after_last_slash(strip_slashes_spec(root));
    if seg.len() == 0 {
        repo_seq()
    } else {
        seg
    }
}

/// The repository's directory name, per [`repo_name_spec`].
pub fn repo_name(repo: &GitRepo) -> (r: String)
    ensures
        r@ == repo_name_spec(repo.root@),
{
    let stripped = strip_slashes_str(repo.root.as_str());
    let seg = after_last_slash_str(stripped.as_str());
    if seg.as_str().unicode_len() == 0 {
        proof {
            reveal_strlit("repo");
            assert(("repo")@ =~= repo_seq());
            assert(seg@ =~= Seq::<char>::empty());
        }
        "repo".to_owned()
    } else {
        seg
    }
}

pub open spec fn repo_pat() -> Seq<char> {
    seq!['{', 'r', 'e', 'p', 'o', '}']
}

pub open spec fn id_pat() -> Seq<char> {
    seq!['{', 'i', 'd', '}']
}

/// The workspace root: the root template with `{repo}` and `{id}`
/// substituted, then a leading `~` expanded.
pub open spec fn workspace_root_spec(
    c: ConfigV,
    root: Seq<char>,
    origin: Option<Seq<char>>,
    common_dir: Seq<char>,
    home: Option<Seq<char>>,
) -> Seq<char> {
    expand_tilde_spec(
        replace_spec(
            replace_spec(c.root, repo_pat(), repo_name_spec(root)),
            id_pat(),
            repo_id_spec(id_input_spec(origin, common_dir)),
        ),
        home,
    )
}

impl Config {
    /// Reconciles the configured base branch against reality: only the
    /// untouched default `main`, when no local `main` branch exists, is
    /// replaced by the detected default branch, and only when one was
    /// detected. An explicitly configured base is never second-guessed.
    pub fn adjust_defaults(&mut self, main_exists: bool, detected_default: Option<&str>)
        ensures
            final(self)@ == (if old(self)@.base == main_seq() && !main_exists
                && detected_default is Some {
                ConfigV { base: detected_default->0@, ..old(self)@ }
            } else {
                old(self)@
            }),
    {
        proof {
            reveal_strlit("main");
            assert(("main")@ =~= main_seq());
        }
        if str_eq_str(self.base.as_str(), "main") && !main_exists {
            match detected_default {
                Some(d) => {
                    self.base = d.to_owned();
                    proof {
                        assert(final(self)@ =~= (ConfigV { base: d@, ..old(self)@ }));
                    }
                },
                None => {},
            }
        }
    }

    /// The workspace root for this configuration and repository, given
    /// the origin remote URL and home directory the caller resolved.
    pub fn workspace_root(&self, repo: &GitRepo, origin: Option<&str>, home: Option<&str>) -> (r:
        String)
        ensures
            r@ == workspace_root_spec(
                self@,
                repo.root@,
                opt_view(origin),
                repo.common_dir@,
                opt_view(home),
            ),
    {
        let name = repo_name(repo);
        let id = compute_repo_id(repo, origin);
        proof {
            reveal_strlit("{repo}");
            reveal_strlit("{id}");
            assert(("{repo}")@ =~= repo_pat());
            assert(("{id}")@ =~= id_pat());
        }
        let e1 = replace_str(self.root.as_str(), "{repo}", name.as_str());
        let e2 = replace_str(e1.as_str(), "{id}", id.as_str());
        expand_tilde(e2.as_str(), home)
    }

    /// The worktree path for a branch slug: the workspace root joined
    /// with the slug as one path segment. The slug is supplied by the
    /// caller already sanitized for filesystem use.
    pub fn worktree_path(
        &self,
        repo: &GitRepo,
        origin: Option<&str>,
        home: Option<&str>,
        branch_slug: &str,
    ) -> (r: String)
        ensures
            r@ == join_spec(
                workspace_root_spec(
                    self@,
                    repo.root@,
                    opt_view(origin),
                    repo.common_dir@,
                    opt_view(home),
                ),
                branch_slug@,
            ),
    {
        let root = self.workspace_root(repo, origin, home);
        join_path(root.as_str(), branch_slug)
    }
}

pub open spec fn config_filename_seq() -> Seq<char> {
    seq!['w', 'o', 'r', 'k', 't', 'y', '.', 't', 'o', 'm', 'l']
}

pub open spec fn dot_config_filename_seq() -> Seq<char> {
    seq!['.', 'w', 'o', 'r', 'k', 't', 'y', '.', 't', 'o', 'm', 'l']
}

pub open spec fn workty_seq() -> Seq<char> {
    seq!['w', 'o', 'r', 'k', 't', 'y']
}

/// The default on-disk location of the configuration file: inside the
/// shared metadata directory.
pub fn config_path(repo: &GitRepo) -> (r: String)
    ensures
        r@ == join_spec(repo.common_dir@, config_filename_seq()),
{
    proof {
        reveal_strlit("workty.toml");
        assert(("workty.toml")@ =~= config_filename_seq());
    }
    join_path(repo.common_dir.as_str(), "workty.toml")
}

/// The ordered candidate locations of the configuration file, highest
/// priority first: repository root, shared metadata directory, user
/// config directory (when known), then the hidden and plain
/// home-directory files (when the home directory is known).
pub open spec fn config_candidates_spec(
    root: Seq<char>,
    common_dir: Seq<char>,
    config_dir: Option<Seq<char>>,
    home: Option<Seq<char>>,
) -> Seq<Seq<char>> {
    let base = seq![
        join_spec(root, config_filename_seq()),
        join_spec(common_dir, config_filename_seq()),
    ];
    let with_cfg = match config_dir {
        Some(d) => base.push(join_spec(join_spec(d, workty_seq()), config_filename_seq())),
        None => base,
    };
    match home {
        Some(h) => with_cfg.push(join_spec(h, dot_config_filename_seq())).push(
            join_spec(h, config_filename_seq()),
        ),
        None => with_cfg,
    }
}

/// Builds the candidate list, per [`config_candidates_spec`];
/// `config_dir` and `home` are the user config and home directories, as
/// far as the caller could resolve them.
pub fn config_candidates(repo: &GitRepo, config_dir: Option<&str>, home: Option<&str>) -> (r: Vec<
    String,
>)
    ensures
        r.deep_view() == config_candidates_spec(
            repo.root@,
            repo.common_dir@,
            opt_view(config_dir),
            opt_view(home),
        ),
{
    proof {
        reveal_strlit("workty.toml");
        reveal_strlit(".workty.toml");
        reveal_strlit("workty");
        assert(("workty.toml")@ =~= config_filename_seq());
        assert((".workty.toml")@ =~= dot_config_filename_seq());
        assert(("workty")@ =~= workty_seq());
    }
    let mut r: Vec<String> = Vec::new();
    let c0 = join_path(repo.root.as_str(), "workty.toml");
    let c1 = join_path(repo.common_dir.as_str(), "workty.toml");
    r.push(c0);
    r.push(c1);
    match config_dir {
        Some(d) => {
            let sub = join_path(d, "workty");
            let c2 = join_path(sub.as_str(), "workty.toml");
            r.push(c2);
        },
        None => {},
    }
    match home {
        Some(h) => {
            let c3 = join_path(h, ".workty.toml");
            let c4 = join_path(h, "workty.toml");
            r.push(c3);
            r.push(c4);
        },
        None => {},
    }
    proof {
        assert(r.deep_view() =~= config_candidates_spec(
            repo.root@,
            repo.common_dir@,
            opt_view(config_dir),
            opt_view(home),
        ));
    }
    r
}

/// The first candidate whose existence probe succeeded, tried strictly
/// in order: `exists[i]` reports whether `candidates[i]` exists on disk.
pub fn select_candidate(candidates: &Vec<String>, exists: &Vec<bool>) -> (r: Option<usize>)
    requires
        candidates@.len() == exists@.len(),
    ensures
        match r {
            Some(i) => i < candidates@.len() && exists@[i as int] && forall|j: int|
                0 <= j < i ==> !exists@[j],
            None => forall|j: int| 0 <= j < exists@.len() ==> !exists@[j],
        },
{
    let mut i: usize = 0;
    let n: usize = candidates.len();
    while i < n
        invariant
            i <= n,
            n == candidates@.len(),
            n == exists@.len(),
            forall|j: int| 0 <= j < i ==> !exists@[j],
        decreases n - i,
    {
        if exists[i] {
            return Some(i);
        }
        i += 1;
    }
    None
}

/// Normalization is idempotent whenever its result does not itself end
/// in whitespace, a slash, or a `.git` suffix. (Suffix stripping can
/// expose trailing whitespace or slashes, and lower-casing can create a
/// new `.git` suffix, so those results shrink again on a second pass.)
pub proof fn lemma_normalize_idempotent(u: Seq<char>)
    requires
        ({
            let v = normalize_spec(u);
            v.len() == 0 || (!crate::is_space(v[v.len() - 1]) && v[v.len() - 1] != '/'
                && !has_git_suffix(v))
        }),
    ensures
        normalize_spec(normalize_spec(u)) == normalize_spec(u),
{
    let t = trim_spec(u);
    let w = strip_git_suffixes(strip_slashes_spec(t));
    let v = normalize_spec(u);
    crate::text::lemma_lower_preserves_non_space(w);
    crate::text::lemma_trim_start_no_leading(u);
    crate::text::lemma_trim_end_prefix(crate::text::trim_start_spec(u));
    lemma_strip_slashes_prefix(t);
    lemma_strip_gits_prefix(strip_slashes_spec(t));
    if v.len() > 0 {
        assert(w.len() == v.len());
        assert(w[0] == crate::text::trim_start_spec(u)[0]);
        assert(!crate::is_space(w[0]));
        assert(!crate::is_space(v[0]));
        assert(crate::text::trim_start_spec(v) == v);
    } else {
        assert(crate::text::trim_start_spec(v) == v);
    }
    assert(crate::text::trim_end_spec(v) == v);
    assert(trim_spec(v) == v);
    assert(strip_slashes_spec(v) == v);
    assert(strip_git_suffixes(v) == v);
    crate::text::lemma_lower_idempotent(w);
    assert(normalize_spec(v) == v);
}

/// Suffix stripping yields a prefix of its input: a helper fact for the
/// idempotence argument.
proof fn lemma_strip_slashes_prefix(s: Seq<char>)
    ensures
        strip_slashes_spec(s).len() <= s.len(),
        strip_slashes_spec(s) == s.take(strip_slashes_spec(s).len() as int),
    decreases s.len(),
{
    if s.len() > 0 && s[s.len() - 1] == '/' {
        lemma_strip_slashes_prefix(s.drop_last());
        assert(s.drop_last().take(strip_slashes_spec(s).len() as int) =~= s.take(
            strip_slashes_spec(s).len() as int,
        ));
    } else {
        assert(s.take(s.len() as int) =~= s);
    }
}

proof fn lemma_strip_gits_prefix(s: Seq<char>)
    ensures
        strip_git_suffixes(s).len() <= s.len(),
        strip_git_suffixes(s) == s.take(strip_git_suffixes(s).len() as int),
    decreases s.len(),
{
    if has_git_suffix(s) {
        lemma_strip_gits_prefix(s.take(s.len() - 4));
        assert(s.take(s.len() - 4).take(strip_git_suffixes(s).len() as int) =~= s.take(
            strip_git_suffixes(s).len() as int,
        ));
    } else {
        assert(s.take(s.len() as int) =~= s);
    }
}

/// The repository identifier is remote-determined: handles whose origin
/// URLs normalize alike get the same identifier, whatever their local
/// clone paths or directory names.
pub proof fn lemma_repo_id_remote_determined(
    u1: Seq<char>,
    u2: Seq<char>,
    common1: Seq<char>,
    common2: Seq<char>,
)
    requires
        normalize_spec(u1) == normalize_spec(u2),
    ensures
        repo_id_spec(id_input_spec(Some(u1), common1)) == repo_id_spec(
            id_input_spec(Some(u2), common2),
        ),
{
}

} // verus!
