use knives::config::loading::{
    check_registry, deleted_path_field, deleted_trusted_table, is_forge_slug, load, rejection, ConfigError, RegistryRead,
};
use knives::config::{
    default_config_path, expand_registry_path, home_dir, is_within, Registry, RepoEntry, Role, TrustRules,
};
use knives::ids::{BranchName, ReleaseScheme, RepoName};
use knives::order::OrdMap;

fn registry(entries: Vec<(&str, RepoEntry)>) -> Registry {
    let mut registry = Registry::default();
    for (name, entry) in entries {
        registry.repos.insert(name.to_owned(), entry);
    }
    registry
}

fn sample() -> Registry {
    registry(vec![
        (
            "example",
            RepoEntry::new(
                "https://example.invalid/upstream.git",
                "https://example.invalid/origin.git",
            ),
        ),
        (
            "split",
            RepoEntry {
                release: Some("https://example.invalid/releases.git".to_owned()),
                ..RepoEntry::new(
                    "https://example.invalid/upstream2.git",
                    "https://example.invalid/branches.git",
                )
            },
        ),
    ])
}

fn loaded(parsed: Registry) -> Result<Registry, ConfigError> {
    load("/cfg/repos.toml", RegistryRead::Parsed(parsed), "/cfg", Some("/home/someone"))
}

fn refused(parsed: Registry) -> String {
    loaded(parsed).expect_err("refused").message()
}

fn malformed(text: &str) -> String {
    load(
        "/cfg/repos.toml",
        RegistryRead::Malformed {
            text: text.to_owned(),
            error: "could not decode".to_owned(),
        },
        "/cfg",
        Some("/home/someone"),
    )
    .expect_err("refused")
    .message()
}

fn entry<'a>(registry: &'a Registry, name: &str) -> &'a RepoEntry {
    registry.get(&RepoName::new(name)).expect("a registered repository")
}

#[test]
fn a_registry_parses_one_entry_per_repo() {
    let registry = loaded(sample()).unwrap();
    assert_eq!(registry.repos.len(), 2);
    assert_eq!(
        entry(&registry, "example").upstream,
        "https://example.invalid/upstream.git"
    );
    assert_eq!(registry.names(), vec![RepoName::new("example"), RepoName::new("split")]);
}

#[test]
fn a_repo_name_that_escapes_the_ledger_directory_is_rejected() {
    let error = refused(registry(vec![("../escape", RepoEntry::new("u", "o"))]));
    assert!(error.contains("../escape"), "was: {error}");
}

#[test]
fn the_release_role_falls_back_to_origin() {
    let registry = loaded(sample()).unwrap();
    let entry = entry(&registry, "example");
    assert_eq!(entry.remote(Role::Release), entry.remote(Role::Origin));
    assert_eq!(entry.publish_remote(), "origin");
    assert!(!entry.has_split_release());
}

#[test]
fn the_release_scheme_is_dated_unless_a_fixed_branch_is_stated() {
    let plain = loaded(registry(vec![("demo", RepoEntry::new("u", "o"))])).unwrap();
    assert_eq!(entry(&plain, "demo").release_scheme(), ReleaseScheme::Dated);

    let fixed = loaded(registry(vec![(
        "demo",
        RepoEntry {
            release_branch: Some("integration".to_owned()),
            ..RepoEntry::new("u", "o")
        },
    )]))
    .unwrap();
    assert_eq!(
        entry(&fixed, "demo").release_scheme(),
        ReleaseScheme::Fixed(BranchName::new("integration"))
    );
}

#[test]
fn an_invalid_release_branch_fails_to_parse() {
    // A release branch named for the trunk would make every trunk exclusion
    // also exclude the release, and one under release/ would collide with the
    // dated scheme's namespace.
    for (base, branch, needle) in [
        (None, "", "empty"),
        (None, "main", "trunk"),
        (Some("dev"), "dev", "trunk"),
        (None, "release/2026-01-01", "release/"),
    ] {
        let message = refused(registry(vec![(
            "d",
            RepoEntry {
                base: base.map(ToOwned::to_owned),
                release_branch: Some(branch.to_owned()),
                ..RepoEntry::new("u", "o")
            },
        )]));
        assert!(message.contains(needle), "for {branch}: was {message}");
    }
}

fn based(base: Option<&str>) -> RepoEntry {
    RepoEntry {
        base: base.map(ToOwned::to_owned),
        ..RepoEntry::new("u", "o")
    }
}

#[test]
fn the_expected_base_is_the_trunk_unless_stated() {
    let plain = loaded(registry(vec![("demo", based(None))])).unwrap();
    assert_eq!(entry(&plain, "demo").default_base(), "main");

    let stated = loaded(registry(vec![("demo", based(Some("develop")))])).unwrap();
    assert_eq!(entry(&stated, "demo").default_base(), "develop");
}

#[test]
fn the_trunk_is_the_base_field_and_defaults_to_main() {
    let plain = loaded(registry(vec![("demo", based(None))])).unwrap();
    assert_eq!(entry(&plain, "demo").trunk(), "main");
    assert_eq!(entry(&plain, "demo").upstream_trunk(), "main@upstream");

    let stated = loaded(registry(vec![("demo", based(Some("dev")))])).unwrap();
    assert_eq!(entry(&stated, "demo").trunk(), "dev");
    assert_eq!(entry(&stated, "demo").upstream_trunk(), "dev@upstream");
    assert_eq!(entry(&stated, "demo").default_base(), "dev");
}

#[test]
fn a_split_release_remote_is_used_when_present() {
    let registry = loaded(sample()).unwrap();
    let entry = entry(&registry, "split");
    assert_eq!(
        entry.remote(Role::Release),
        "https://example.invalid/releases.git"
    );
    assert_eq!(entry.publish_remote(), "release");
    assert!(entry.has_split_release());
}

#[test]
fn an_equal_release_url_is_not_a_split_publish_role() {
    let registry = loaded(registry(vec![(
        "demo",
        RepoEntry {
            release: Some("https://forge.invalid/ours/demo.git".to_owned()),
            ..RepoEntry::new(
                "https://forge.invalid/up/demo.git",
                "https://forge.invalid/ours/demo.git",
            )
        },
    )]))
    .expect("equal release URL parses");
    let entry = entry(&registry, "demo");

    assert_eq!(entry.publish_remote(), "origin");
    assert!(!entry.has_split_release());
}

#[test]
fn a_remote_url_that_looks_like_an_option_is_rejected_at_config_load() {
    let error = refused(registry(vec![("demo", RepoEntry::new("u", "--upload-pack=x"))]));
    assert!(error.contains("origin remote"), "was: {error}");
    assert!(error.contains("must not start with `-`"), "was: {error}");
}

fn consumed(consumer: &str) -> Registry {
    registry(vec![(
        "demo",
        RepoEntry {
            consumers: vec![consumer.to_owned()],
            ..RepoEntry::new("u", "o")
        },
    )])
}

#[test]
fn consumer_slugs_load_verbatim() {
    let registry = loaded(consumed("an-org/a-consumer")).unwrap();
    assert_eq!(
        entry(&registry, "demo").consumers,
        vec!["an-org/a-consumer".to_owned()]
    );
}

#[test]
fn a_path_in_consumers_is_a_loud_config_error_naming_the_new_form() {
    let error = refused(consumed("~/one/default"));
    assert!(error.contains("forge slugs"), "was: {error}");
    assert!(error.contains("--consumer"), "was: {error}");
}

fn trusting(repos: &[&str], roots: &[&str], owners: &[&str]) -> Registry {
    let list = |texts: &[&str]| texts.iter().map(|text| (*text).to_owned()).collect::<Vec<String>>();
    Registry {
        trust: TrustRules {
            repos: list(repos),
            roots: list(roots),
            owners: list(owners),
        },
        ..Registry::default()
    }
}

fn remotes(name: &str, url: &str) -> OrdMap<String, String> {
    let mut remotes: OrdMap<String, String> = OrdMap::new();
    remotes.insert(name.to_owned(), url.to_owned());
    remotes
}

#[test]
fn trust_repos_are_forge_slugs_and_grant_by_any_remote() {
    let registry = loaded(trusting(&["Company/Tool", "company/other.git"], &[], &["someone"])).unwrap();
    assert!(registry
        .trust
        .grants_by_remotes(&remotes("origin", "git@forge.example:company/tool.git")));
    assert!(registry
        .trust
        .grants_by_remotes(&remotes("origin", "https://forge.example/company/other")));
    assert!(!registry
        .trust
        .grants_by_remotes(&remotes("origin", "https://forge.example/company/third")));
    assert!(registry
        .trust
        .grants_by_remotes(&remotes("upstream", "https://forge.example/someone/anything")));
}

#[test]
fn a_trust_repo_that_is_not_a_slug_is_rejected() {
    let error = refused(trusting(&["~/somewhere"], &[], &[]));
    assert!(
        error.contains("[trust] repos takes forge slugs (\"<owner>/<repo>\"); found \"~/somewhere\""),
        "{error}"
    );
}

#[test]
fn a_refused_name_is_shown_with_its_quotes_escaped() {
    let error = refused(registry(vec![("a/\"b\"", RepoEntry::new("u", "o"))]));
    assert!(error.contains("\"a/\\\"b\\\"\""), "{error}");
}

#[test]
fn a_trusted_table_names_its_replacement() {
    let error = malformed("[trusted.work]\n");
    assert!(
        error.contains(
            "[trusted.work] is no longer a registry table; move it to [trust] repos = [\"<owner>/<repo>\"]"
        ),
        "{error}"
    );
}

#[test]
fn a_path_field_names_its_removal() {
    let error = malformed(
        "[repos.tool]\npath = \"~/tool\"\nupstream = \"https://forge.example/org/tool\"\n\
         origin = \"https://forge.example/ours/tool\"\n",
    );
    assert!(
        error.contains(
            "[repos.tool] path is no longer a registry field; delete it — knives finds checkouts by their remotes"
        ),
        "{error}"
    );
}

#[test]
fn every_entry_carrying_a_path_field_is_named_at_once() {
    // Naming the first would take one load per entry to migrate a registry.
    let error = malformed(
        "[repos.zeta]\npath = \"~/z\"\nupstream = \"u1\"\norigin = \"o\"\n\n\
         [repos.alpha]\npath = \"~/a\"\nupstream = \"u2\"\norigin = \"o\"\n\n\
         [repos.clean]\nupstream = \"u3\"\norigin = \"o\"\n",
    );
    assert!(
        error.contains(
            "[repos.alpha], [repos.zeta] path is no longer a registry field; delete it — knives finds checkouts by their remotes"
        ),
        "{error}"
    );
    assert!(!error.contains("[repos.clean]"), "{error}");
}

#[test]
fn a_registry_with_both_a_path_field_and_a_trusted_table_names_both_at_once() {
    let error =
        malformed("[repos.tool]\npath = \"~/tool\"\nupstream = \"u\"\norigin = \"o\"\n\n[trusted.work]\n");
    assert!(
        error.contains("[trusted.work] is no longer a registry table"),
        "{error}"
    );
    assert!(
        error.contains("[repos.tool] path is no longer a registry field"),
        "{error}"
    );
}

#[test]
fn a_text_that_is_wrong_in_another_way_keeps_the_decoders_words() {
    let error = malformed("[repos.x]\nreleas = \"r\"\n");
    assert!(error.contains("could not decode"), "{error}");
    assert_eq!(rejection("not toml at all ["), None);
    assert_eq!(deleted_trusted_table(None), None);
    assert_eq!(deleted_path_field(Vec::new()), None);
}

#[test]
fn two_entries_sharing_an_upstream_are_rejected() {
    let error = refused(registry(vec![
        (
            "a",
            RepoEntry::new("https://forge.example/org/tool", "https://forge.example/ours/tool"),
        ),
        (
            "b",
            RepoEntry::new("git@forge.example:org/tool.git", "https://forge.example/theirs/tool"),
        ),
    ]));
    assert!(
        error.contains(
            "[repos.a] and [repos.b] share upstream https://forge.example/org/tool; identity must be unique"
        ),
        "{error}"
    );
}

fn housed(workspaces: &str) -> RepoEntry {
    RepoEntry {
        workspaces: Some(workspaces.to_owned()),
        ..RepoEntry::new("u", "o")
    }
}

#[test]
fn an_entry_without_path_loads_and_workspaces_is_a_preference() {
    let registry = loaded(registry(vec![("tool", housed("~/.worktrees/tool"))])).unwrap();
    assert_eq!(
        entry(&registry, "tool").workspaces.as_deref(),
        Some("/home/someone/.worktrees/tool")
    );
}

#[test]
fn a_relative_workspaces_directory_is_resolved_against_the_config_home() {
    let registry = loaded(registry(vec![("tool", housed("worktrees/tool"))])).unwrap();
    assert_eq!(
        entry(&registry, "tool").workspaces.as_deref(),
        Some("/cfg/worktrees/tool")
    );
}

#[test]
fn an_empty_workspaces_directory_is_a_config_error() {
    let error = refused(registry(vec![("tool", housed(""))]));
    assert!(error.contains("workspaces"), "was: {error}");
    assert!(error.contains("empty"), "was: {error}");
}

#[test]
fn trust_rules_parse_and_expand() {
    let registry = loaded(trusting(&[], &["~/agent-c"], &["some-owner", "some-org"])).unwrap();
    assert_eq!(registry.trust.roots, vec!["/home/someone/agent-c".to_owned()]);
    assert_eq!(
        registry.trust.owners,
        vec!["some-owner".to_owned(), "some-org".to_owned()]
    );
}

#[test]
fn a_tilde_path_is_refused_by_name_when_there_is_no_home_to_expand_it() {
    // Left unexpanded, `~/ws` is a relative path and workspaces would open
    // under `<cwd>/~/ws`. Every offending key is named.
    let mut parsed = registry(vec![
        ("demo", housed("~/ws/demo")),
        (
            "plain",
            RepoEntry {
                upstream: "u2".to_owned(),
                ..housed("/abs/plain")
            },
        ),
    ]);
    parsed.trust.roots = vec!["~".to_owned(), "/abs/root".to_owned()];
    let error = load("/cfg/repos.toml", RegistryRead::Parsed(parsed), "/cfg", None)
        .expect_err("no home")
        .message();
    assert!(
        error.contains("[repos.demo] workspaces = \"~/ws/demo\" needs HOME"),
        "{error}"
    );
    assert!(error.contains("[trust] roots = \"~\" needs HOME"), "{error}");
    assert!(!error.contains("plain"), "{error}");
    assert!(!error.contains("/abs/root"), "{error}");

    // Without a tilde anywhere, a missing home is not the registry's problem.
    let mut absolute = registry(vec![("plain", housed("/abs/plain"))]);
    absolute.trust.roots = vec!["/abs/root".to_owned()];
    assert_eq!(check_registry(&absolute, None), None);
    let registry = load("/cfg/repos.toml", RegistryRead::Parsed(absolute), "/cfg", None).unwrap();
    assert_eq!(
        entry(&registry, "plain").workspaces.as_deref(),
        Some("/abs/plain")
    );
}

#[test]
fn a_tilde_path_resolves_the_same_way_the_plugin_resolves_it() {
    assert_eq!(
        expand_registry_path("~/repos/x", "/cfg", Some("/home/someone")),
        "/home/someone/repos/x"
    );
    assert_eq!(
        expand_registry_path("~", "/cfg", Some("/home/someone")),
        "/home/someone"
    );
}

#[test]
fn a_relative_path_resolves_against_the_config_home_not_the_cwd() {
    assert_eq!(expand_registry_path("repos/x", "/cfg", None), "/cfg/repos/x");
}

#[test]
fn an_absolute_path_is_left_alone() {
    assert_eq!(expand_registry_path("/abs/x", "/cfg", None), "/abs/x");
}

#[test]
fn a_missing_file_is_an_empty_registry() {
    assert!(load("/cfg/absent.toml", RegistryRead::Missing, "/cfg", None)
        .unwrap()
        .is_empty());
}

#[test]
fn an_unreadable_file_is_a_read_error() {
    assert_eq!(
        load(
            "/cfg/repos.toml",
            RegistryRead::Unreadable("denied".to_owned()),
            "/cfg",
            None
        ),
        Err(ConfigError::Read {
            path: "/cfg/repos.toml".to_owned(),
            source: "denied".to_owned()
        })
    );
}

#[test]
fn a_slug_has_an_owner_and_a_repository_and_no_path_syntax() {
    assert!(is_forge_slug("owner/repo"));
    assert!(!is_forge_slug("repo"));
    assert!(!is_forge_slug("owner/repo/extra"));
    assert!(!is_forge_slug("~/repo"));
    assert!(!is_forge_slug("owner/"));
}

#[test]
fn a_trusted_root_covers_its_subtree_and_nothing_beside_it() {
    assert!(is_within("/a/b/c", "/a/b"));
    assert!(is_within("/a/b", "/a/b"));
    assert!(!is_within("/a/bc", "/a/b"));
    let rules = trusting(&[], &["/a/b"], &[]).trust;
    assert!(rules.contains_root("/a/b/c"));
    assert!(!rules.contains_root("/a"));
    assert!(!rules.is_empty());
    assert!(TrustRules::default().is_empty());
}

#[test]
fn the_registry_lives_where_the_user_keeps_configuration() {
    assert_eq!(
        default_config_path(Some("/own"), Some("/xdg"), Some("/home/u")),
        "/own/repos.toml"
    );
    assert_eq!(
        default_config_path(None, Some("/xdg"), Some("/home/u")),
        "/xdg/knives/repos.toml"
    );
    assert_eq!(
        default_config_path(None, None, Some("/home/u")),
        "/home/u/.config/knives/repos.toml"
    );
    assert_eq!(home_dir(Some("")), None);
    assert_eq!(home_dir(Some("/home/u")), Some("/home/u"));
}

#[test]
fn the_commits_nobody_may_rewrite_are_named_remote_by_remote() {
    let split = entry(&sample(), "split").immutable_heads();
    let plain = entry(&sample(), "example").immutable_heads();
    assert!(split.starts_with("trunk() | tags() | ") && split.contains("upstream"));
    assert!(plain.len() < split.len());
}
