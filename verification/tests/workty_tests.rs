use workty::config::{
    compute_repo_id, config_candidates, config_path, expand_tilde, normalize_url, select_candidate,
    Config,
};
use workty::git::{parse_head_ref, GitRepo};

fn repo(root: &str, common: &str) -> GitRepo {
    GitRepo { root: root.to_string(), common_dir: common.to_string() }
}

#[test]
fn test_config_default() {
    let config = Config::default();
    assert_eq!(config.version, 1);
    assert_eq!(config.base, "main");
    assert_eq!(config.layout, "flat");
}

#[test]
fn test_normalize_url() {
    assert_eq!(
        normalize_url("https://github.com/user/repo.git"),
        "https://github.com/user/repo"
    );
    assert_eq!(
        normalize_url("git@github.com:user/repo.git/"),
        "git@github.com:user/repo"
    );
}

#[test]
fn test_normalize_url_case_and_repeats() {
    assert_eq!(normalize_url("  HTTPS://Example.COM/Repo.git.git//  "), "https://example.com/repo");
    assert_eq!(normalize_url(""), "");
}

#[test]
fn test_normalize_idempotent_samples() {
    for u in [
        "https://github.com/user/repo.git",
        "git@github.com:user/repo.git/",
        "  HTTPS://Example.COM/Repo.git.git//  ",
        "ssh://host/path",
        "",
    ] {
        let once = normalize_url(u);
        assert_eq!(normalize_url(&once), once);
    }
}

#[test]
fn test_expand_tilde() {
    if let Some(home) = dirs::home_dir() {
        if let Some(hs) = home.to_str() {
            assert_eq!(expand_tilde("~", Some(hs)), hs);
            assert_eq!(expand_tilde("~/foo", Some(hs)), home.join("foo").to_str().unwrap());
        }
    }
    assert_eq!(expand_tilde("/abs/path", None), "/abs/path");
    assert_eq!(expand_tilde("rel/path", None), "rel/path");
}

#[test]
fn test_expand_tilde_without_home() {
    assert_eq!(expand_tilde("~", None), "~");
    assert_eq!(expand_tilde("~/foo", None), "~/foo");
    assert_eq!(expand_tilde("/abs/path", Some("/home/u")), "/abs/path");
}

#[test]
fn test_config_roundtrip() {
    let config = Config {
        version: 1,
        base: "develop".to_string(),
        root: "~/.worktrees/{repo}".to_string(),
        layout: "flat".to_string(),
        open_cmd: Some("code".to_string()),
    };

    let serialized = config.to_text();
    let deserialized = Config::parse(&serialized).unwrap();

    assert_eq!(config.base, deserialized.base);
    assert_eq!(config.open_cmd, deserialized.open_cmd);
}

#[test]
fn test_roundtrip_all_fields_and_specials() {
    let config = Config {
        version: 4294967295,
        base: "we\"ird\\name\twith\nnewline".to_string(),
        root: "~/.workty/{repo}-{id}".to_string(),
        layout: "flat".to_string(),
        open_cmd: None,
    };
    let deserialized = Config::parse(&config.to_text()).unwrap();
    assert_eq!(deserialized.version, config.version);
    assert_eq!(deserialized.base, config.base);
    assert_eq!(deserialized.root, config.root);
    assert_eq!(deserialized.layout, config.layout);
    assert_eq!(deserialized.open_cmd, config.open_cmd);
}

#[test]
fn test_to_text_exact_format() {
    let text = Config::default().to_text();
    assert_eq!(
        text,
        "version = 1\nbase = \"main\"\nroot = \"~/.workty/{repo}-{id}\"\nlayout = \"flat\"\n"
    );
    let config = Config {
        open_cmd: Some("code -g".to_string()),
        ..Config::default()
    };
    assert!(config.to_text().ends_with("open_cmd = \"code -g\"\n"));
    // escapes in a field are written out and read back
    let config = Config {
        base: "a\\b\"c".to_string(),
        ..Config::default()
    };
    assert!(config.to_text().contains("base = \"a\\\\b\\\"c\""));
}

#[test]
fn test_parse_defaults_and_tolerance() {
    // empty document: everything defaults
    let c = Config::parse("").unwrap();
    assert_eq!(c.version, 1);
    assert_eq!(c.base, "main");
    assert_eq!(c.root, "~/.workty/{repo}-{id}");
    assert_eq!(c.layout, "flat");
    assert_eq!(c.open_cmd, None);
    // comments, blank lines and unknown keys are ignored
    let c = Config::parse("# a comment\n\nunknown = whatever\nbase = \"trunk\"\n").unwrap();
    assert_eq!(c.base, "trunk");
    assert_eq!(c.version, 1);
}

#[test]
fn test_parse_errors() {
    // a bare word is not a key/value line
    assert!(Config::parse("garbage").is_none());
    // a known key must have a value of the right form
    assert!(Config::parse("base = unquoted").is_none());
    assert!(Config::parse("version = \"1\"").is_none());
    assert!(Config::parse("base = \"unterminated").is_none());
    assert!(Config::parse("base = \"bad \\x escape\"").is_none());
    // version must fit in 32 bits
    assert!(Config::parse("version = 4294967296").is_none());
    assert_eq!(Config::parse("version = 4294967295").unwrap().version, 4294967295);
}

#[test]
fn test_repo_id_known_digests() {
    // sha256("") begins with e3b0c442
    let r = repo("", "");
    assert_eq!(compute_repo_id(&r, None), "e3b0c442");
    // sha256("abc") begins with ba7816bf
    assert_eq!(compute_repo_id(&r, Some("abc")), "ba7816bf");
}

#[test]
fn test_repo_id_remote_determined() {
    let r1 = repo("/home/a/clone-one", "/home/a/clone-one/.git");
    let r2 = repo("/srv/elsewhere/two", "/srv/elsewhere/two/.git");
    let id1 = compute_repo_id(&r1, Some("https://github.com/User/Repo.git"));
    let id2 = compute_repo_id(&r2, Some("https://github.com/user/repo/"));
    assert_eq!(id1, id2);
    assert_eq!(id1.len(), 8);
    assert!(id1.chars().all(|c| c.is_ascii_hexdigit()));
    // without a remote, the identifier comes from the metadata directory
    let id3 = compute_repo_id(&r1, None);
    let id4 = compute_repo_id(&r2, None);
    assert_ne!(id3, id4);
}

#[test]
fn test_workspace_root_template() {
    let r = repo("/work/myproj", "/work/myproj/.git");
    let config = Config::default();
    let id = compute_repo_id(&r, Some("https://example.com/myproj.git"));
    let ws = config.workspace_root(&r, Some("https://example.com/myproj.git"), Some("/home/u"));
    assert_eq!(ws, format!("/home/u/.workty/myproj-{}", id));
    assert!(ws.ends_with(&format!(".workty/myproj-{}", id)));
}

#[test]
fn test_worktree_path_joins_slug() {
    let r = repo("/work/myproj", "/work/myproj/.git");
    let config = Config::default();
    let origin = Some("https://example.com/myproj.git");
    let ws = config.workspace_root(&r, origin, Some("/home/u"));
    let wt = config.worktree_path(&r, origin, Some("/home/u"), "feat-x");
    assert_eq!(wt, format!("{}/feat-x", ws));
}

#[test]
fn test_repo_name_fallback() {
    let r = repo("/", "/");
    let config = Config {
        root: "/ws/{repo}".to_string(),
        ..Config::default()
    };
    let ws = config.workspace_root(&r, None, None);
    assert_eq!(ws, "/ws/repo");
}

#[test]
fn test_config_candidates_order() {
    let r = repo("/work/p", "/work/p/.git");
    let cs = config_candidates(&r, Some("/home/u/.config"), Some("/home/u"));
    assert_eq!(
        cs,
        vec![
            "/work/p/workty.toml".to_string(),
            "/work/p/.git/workty.toml".to_string(),
            "/home/u/.config/workty/workty.toml".to_string(),
            "/home/u/.workty.toml".to_string(),
            "/home/u/workty.toml".to_string(),
        ]
    );
    // without the user directories only the repository candidates remain
    let cs = config_candidates(&r, None, None);
    assert_eq!(cs.len(), 2);
}

#[test]
fn test_candidate_priority_repo_root_first() {
    let r = repo("/work/p", "/work/p/.git");
    let cs = config_candidates(&r, None, None);
    // both the repository-root file and the metadata-directory file exist:
    // the repository-root one is selected
    let exists = vec![true, true];
    let picked = select_candidate(&cs, &exists).unwrap();
    assert_eq!(cs[picked], "/work/p/workty.toml");
    // only the metadata-directory file exists
    let exists = vec![false, true];
    let picked = select_candidate(&cs, &exists).unwrap();
    assert_eq!(cs[picked], "/work/p/.git/workty.toml");
    // none exists
    assert!(select_candidate(&cs, &vec![false, false]).is_none());
}

#[test]
fn test_config_path_is_metadata_candidate() {
    let r = repo("/work/p", "/work/p/.git");
    assert_eq!(config_path(&r), "/work/p/.git/workty.toml");
}

#[test]
fn test_parse_head_ref() {
    assert_eq!(parse_head_ref("ref: refs/heads/main\n"), Some("main".to_string()));
    assert_eq!(parse_head_ref("ref: refs/heads/feature/x\n"), Some("feature/x".to_string()));
    assert_eq!(parse_head_ref("1f2e3d4c5b6a79881f2e3d4c5b6a7988aabbccdd\n"), None);
    assert_eq!(parse_head_ref(""), None);
}

#[test]
fn test_default_branch_tiers() {
    let r = repo("/p", "/p/.git");
    // tier 1: HEAD symbolic reference wins
    assert_eq!(
        r.default_branch(Some("ref: refs/heads/trunk\n"), true, true),
        Some("trunk".to_string())
    );
    // tier 2: main exists
    assert_eq!(r.default_branch(None, true, true), Some("main".to_string()));
    // tier 3: only master exists
    assert_eq!(
        r.default_branch(Some("detached"), false, true),
        Some("master".to_string())
    );
    // nothing resolves
    assert_eq!(r.default_branch(None, false, false), None);
}

#[test]
fn test_adjust_defaults_detects_actual_branch() {
    let r = repo("/p", "/p/.git");
    let mut config = Config::default();
    // base is the untouched default, no local main, HEAD points at trunk
    let detected = r.default_branch(Some("ref: refs/heads/trunk\n"), false, false);
    config.adjust_defaults(false, detected.as_deref());
    assert_eq!(config.base, "trunk");
}

#[test]
fn test_adjust_defaults_never_rewrites_explicit_base() {
    let mut config = Config {
        base: "develop".to_string(),
        ..Config::default()
    };
    config.adjust_defaults(false, Some("trunk"));
    assert_eq!(config.base, "develop");
    // and an unresolved default branch leaves main in place
    let mut config = Config::default();
    config.adjust_defaults(false, None);
    assert_eq!(config.base, "main");
    // an existing main is kept
    let mut config = Config::default();
    config.adjust_defaults(true, Some("trunk"));
    assert_eq!(config.base, "main");
}

#[test]
fn test_fresh_repository_flow() {
    // a fresh repository: HEAD points at main, but the branch has no
    // commits yet, so it does not verify as existing; no config file.
    let r = repo("/tmp/fresh", "/tmp/fresh/.git");
    let head = "ref: refs/heads/main\n";
    let detected = r.default_branch(Some(head), false, false);
    assert_eq!(detected, Some("main".to_string()));
    let mut config = Config::default();
    config.adjust_defaults(false, detected.as_deref());
    assert_eq!(config.base, "main");
}

#[test]
fn test_from_query_output() {
    // outputs are trimmed; a relative common directory resolves against
    // the root, an absolute one stands alone
    let r = GitRepo::from_query_output("/a/b\n", ".git\n");
    assert_eq!(r.root, "/a/b");
    assert_eq!(r.common_dir, "/a/b/.git");
    let r = GitRepo::from_query_output("/a/b\n", "/shared/meta\n");
    assert_eq!(r.common_dir, "/shared/meta");
}

#[test]
fn test_origin_url_trims_and_degrades() {
    let r = repo("/p", "/p/.git");
    assert_eq!(r.origin_url(Some("https://h/r.git\n")), Some("https://h/r.git".to_string()));
    assert_eq!(r.origin_url(None), None);
}
