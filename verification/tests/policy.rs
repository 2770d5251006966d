//! The path policy: which paths may be shown.

use kuntu::model::{SearchConfig, SearchQuery, SearchRoot};
use kuntu::path::FilePath;
use kuntu::policy::{is_hidden, is_ignored, is_sensitive, normal_components, PathPolicy};

/// Fixture roots start at the volume root and use only controlled components.
/// The paths are never created; evaluation is pure logic.
fn fixture_root(name: &str) -> FilePath {
    FilePath::from_text("/").join(&format!("kfs-core-{name}-4711"))
}

fn policy() -> (PathPolicy, FilePath) {
    let root = SearchRoot::new(fixture_root("policy")).with_priority(10);
    let configured = root.path.clone();
    (PathPolicy::new(SearchConfig { roots: vec![root] }), configured)
}

fn has(reasons: &[String], reason: &str) -> bool {
    reasons.iter().any(|r| r == reason)
}

#[test]
fn allows_paths_inside_enabled_roots() {
    let (policy, root) = policy();
    let decision = policy.evaluate(&root.join("project").join("main.rs"), None);

    assert!(decision.allowed);
    assert_eq!(decision.root, Some(root.clone()));
    assert_eq!(decision.root_priority, 10);
    assert_eq!(decision.reasons, vec!["inside-root"]);
}

#[test]
fn denies_paths_outside_configured_roots() {
    let (policy, _root) = policy();
    let outside = fixture_root("elsewhere");
    let decision = policy.evaluate(&outside.join("documents").join("report.pdf"), None);

    assert!(!decision.allowed);
    assert_eq!(decision.root, None);
    assert!(decision.reasons.contains(&"outside-configured-roots".to_string()));
}

#[test]
fn denies_generated_directories_by_default() {
    let (policy, root) = policy();
    let decision = policy.evaluate(
        &root.join("app").join("node_modules").join("pkg").join("index.js"),
        None,
    );

    assert!(!decision.allowed);
    assert!(decision.ignored);
    assert!(decision.reasons.contains(&"ignored-deny".to_string()));
}

#[test]
fn denies_sensitive_paths_even_when_ignored_paths_are_allowed() {
    let (policy, root) = policy();
    let query = SearchQuery {
        include_ignored: true,
        include_hidden: true,
        ..SearchQuery::new("id_rsa")
    };
    let decision = policy.evaluate(&root.join(".ssh").join("id_rsa"), Some(&query));

    assert!(!decision.allowed);
    assert!(decision.sensitive);
    assert!(decision.reasons.contains(&"sensitive-deny".to_string()));
}

#[test]
fn query_can_include_hidden_non_sensitive_paths() {
    let (policy, root) = policy();
    let query = SearchQuery { include_hidden: true, ..SearchQuery::new("config") };
    let decision = policy.evaluate(&root.join(".config").join("readme.md"), Some(&query));

    assert!(decision.allowed);
    assert!(decision.hidden);
}

#[test]
fn root_can_include_ignored_paths() {
    let root = SearchRoot::new(fixture_root("policy")).include_ignored(true);
    let configured = root.path.clone();
    let policy = PathPolicy::new(SearchConfig { roots: vec![root] });
    let decision = policy.evaluate(
        &configured.join("project").join("target").join("debug").join("app"),
        None,
    );

    assert!(decision.allowed);
    assert!(decision.ignored);
}

#[test]
fn explicit_root_under_hidden_parent_does_not_hide_every_child() {
    let root = SearchRoot::new(
        fixture_root("hidden-parent").join(".codex").join("worktree").join("project"),
    );
    let configured = root.path.clone();
    let policy = PathPolicy::new(SearchConfig { roots: vec![root] });

    let decision = policy.evaluate(&configured.join("src").join("main.rs"), None);

    assert!(decision.allowed);
    assert!(!decision.hidden);
}

#[test]
fn hidden_directories_inside_explicit_root_are_still_hidden() {
    let root = SearchRoot::new(
        fixture_root("hidden-parent").join(".codex").join("worktree").join("project"),
    );
    let configured = root.path.clone();
    let policy = PathPolicy::new(SearchConfig { roots: vec![root] });

    let decision = policy.evaluate(&configured.join(".cache").join("file"), None);

    assert!(!decision.allowed);
    assert!(decision.hidden);
}

#[test]
fn the_deepest_root_decides_and_of_equal_ones_the_last() {
    let outer = SearchRoot::new(FilePath::from_text("/work")).with_priority(1);
    let inner = SearchRoot::new(FilePath::from_text("/work/app")).with_priority(2);
    let twin = SearchRoot::new(FilePath::from_text("/work//app/")).with_priority(3);
    let off = SearchRoot {
        enabled: false,
        ..SearchRoot::new(FilePath::from_text("/work/app/src")).with_priority(4)
    };
    let policy = PathPolicy::new(SearchConfig { roots: vec![inner, outer, twin, off] });

    let deep = policy.evaluate(&FilePath::from_text("/work/app/src/main.rs"), None);
    assert_eq!(deep.root_priority, 3);
    let shallow = policy.evaluate(&FilePath::from_text("/work/notes.md"), None);
    assert_eq!(shallow.root_priority, 1);
    let sibling = policy.evaluate(&FilePath::from_text("/work/application/x"), None);
    assert_eq!(sibling.root_priority, 1);
    let none = policy.evaluate(&FilePath::from_text("/workshop/x"), None);
    assert_eq!(none.root, None);
    assert_eq!(none.root_priority, 0);
}

#[test]
fn reasons_are_listed_in_order() {
    let (policy, root) = policy();
    let decision = policy.evaluate(&root.join(".git").join("my-Secrets.pem"), None);
    assert!(!decision.allowed);
    assert_eq!(
        decision.reasons,
        vec!["inside-root", "sensitive-deny", "hidden-deny", "ignored-deny"]
    );
}

#[test]
fn sensitive_names_and_extensions() {
    let sensitive = |text: &str| {
        let path = FilePath::from_text(text);
        is_sensitive(&path, &normal_components(&path))
    };
    assert!(sensitive("/r/.aws/config"));
    assert!(sensitive("/r/.env"));
    assert!(sensitive("/r/.ENV.local"));
    assert!(sensitive("/r/My-Credentials/a.txt"));
    assert!(sensitive("/r/TopSECRET.txt"));
    assert!(sensitive("/r/server.PEM"));
    assert!(sensitive("/r/a.p12"));
    assert!(!sensitive("/r/.envrc"));
    assert!(!sensitive("/r/keyboard.md"));
    assert!(!sensitive("/r/.key"));
    assert!(!sensitive("/r/.AWS/config"));
}

#[test]
fn ignored_names_match_whole_components() {
    let ignored = |text: &str| {
        let path = FilePath::from_text(text);
        is_ignored(&path, &normal_components(&path))
    };
    assert!(ignored("/r/target/debug"));
    assert!(ignored("/r/Pods"));
    assert!(ignored("/r/a/.DS_Store"));
    assert!(!ignored("/r/targets"));
    assert!(!ignored("/r/pods"));
}

#[test]
fn dots_alone_are_not_hidden_names() {
    let names = |v: &[&str]| v.iter().map(|s| s.to_string()).collect::<Vec<_>>();
    assert!(is_hidden(&names(&["src", ".git"])));
    assert!(is_hidden(&names(&["..."])));
    assert!(!is_hidden(&names(&[".", "..", "a.b"])));
}

#[test]
fn components_that_are_not_utf8_are_left_out() {
    let path = FilePath::from_bytes(b"/r/\xff/./../b".to_vec());
    assert_eq!(normal_components(&path), vec!["r", "b"]);
}

#[test]
fn a_leading_tilde_is_the_home_directory() {
    let roots = vec![SearchRoot::new(FilePath::from_text("/home/me/Dev"))];
    let unknown = PathPolicy::new(SearchConfig { roots });
    let policy = unknown.clone().with_home(Some(FilePath::from_text("/home/me")));
    let path = FilePath::from_text("~/Dev/app/main.rs");

    let inside = policy.evaluate(&path, None);
    assert!(inside.allowed);
    assert_eq!(inside.path, FilePath::from_text("/home/me/Dev/app/main.rs"));
    assert!(has(&unknown.evaluate(&path, None).reasons, "outside-configured-roots"));
    let plain = policy.clone().with_home(None).evaluate(&path, None);
    assert!(has(&plain.reasons, "outside-configured-roots"));
}
