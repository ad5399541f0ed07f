use linker::LinkerError;
use linker::manifest::ManifestNode;
use linker::registry::ResourcePair;
use linker::resolve::{LinkAction, count_instance_entries, resolve, resolve_with};

fn pair(name: &str, path: &str) -> ResourcePair {
    ResourcePair { name: name.to_string(), path: path.to_string() }
}

fn table(entries: Vec<(&str, ManifestNode)>) -> ManifestNode {
    ManifestNode::Table(entries.into_iter().map(|(k, v)| (k.to_string(), v)).collect())
}

fn scalar(s: &str) -> ManifestNode {
    ManifestNode::Scalar(s.to_string())
}

#[test]
fn instance_true_links_fresh_subdirectory() {
    let resources = vec![pair("ckpt", "/data/ckpt")];
    let manifest = table(vec![("ckpt", table(vec![("instance", ManifestNode::Bool(true))]))]);
    let disk: Vec<String> = vec![];
    let suffixes = vec!["abcdefghi".to_string()];
    let res = resolve_with("/w", &manifest, &resources, &disk, &suffixes).unwrap();
    assert_eq!(res.entries, vec![pair("ckpt", "/data/ckpt/ckpt-abcdefghi")]);
    assert_eq!(
        res.actions,
        vec![
            LinkAction::MkDir { path: "/data/ckpt/ckpt-abcdefghi".to_string() },
            LinkAction::Symlink {
                src: "/data/ckpt/ckpt-abcdefghi".to_string(),
                dst: "ckpt".to_string(),
            },
        ]
    );
    assert!(res.missing.is_empty());
}

#[test]
fn instance_false_links_shared_path() {
    let resources = vec![pair("ckpt", "/data/ckpt")];
    let manifest = table(vec![("ckpt", table(vec![("instance", ManifestNode::Bool(false))]))]);
    let res = resolve_with("/w", &manifest, &resources, &vec![], &vec![]).unwrap();
    assert_eq!(res.entries, vec![pair("ckpt", "/data/ckpt")]);
    assert_eq!(
        res.actions,
        vec![LinkAction::Symlink { src: "/data/ckpt".to_string(), dst: "ckpt".to_string() }]
    );
}

#[test]
fn known_resource_without_instance_key_links_shared_path() {
    let resources = vec![pair("ckpt", "/data/ckpt")];
    let manifest = table(vec![("ckpt", table(vec![("note", scalar("ignored"))]))]);
    let res = resolve_with("/w", &manifest, &resources, &vec![], &vec![]).unwrap();
    assert_eq!(res.entries, vec![pair("ckpt", "/data/ckpt")]);
    assert_eq!(
        res.actions,
        vec![LinkAction::Symlink { src: "/data/ckpt".to_string(), dst: "ckpt".to_string() }]
    );
    assert!(res.missing.is_empty());
}

#[test]
fn nested_resource_reference_links_under_directory() {
    let resources = vec![pair("cityscapes", "/data/cs")];
    let manifest = table(vec![("dataset", table(vec![("cityscapes", scalar("cityscapes"))]))]);
    let res = resolve_with("/w", &manifest, &resources, &vec![], &vec![]).unwrap();
    assert_eq!(res.entries, vec![pair("/w/dataset/cityscapes", "/data/cs")]);
    assert_eq!(
        res.actions,
        vec![LinkAction::Symlink {
            src: "/data/cs".to_string(),
            dst: "/w/dataset/cityscapes".to_string(),
        }]
    );
}

#[test]
fn literal_path_fallback_links_existing_path() {
    let resources = vec![];
    let manifest = table(vec![("dataset", table(vec![("k", scalar("/existing/literal/path"))]))]);
    let disk = vec!["/existing/literal/path".to_string()];
    let res = resolve_with("/w", &manifest, &resources, &disk, &vec![]).unwrap();
    assert_eq!(res.entries, vec![pair("k", "/existing/literal/path")]);
    assert!(res.missing.is_empty());
}

#[test]
fn missing_reference_is_skipped_with_diagnostic_and_rest_still_links() {
    let resources = vec![pair("cityscapes", "/data/cs")];
    let manifest = table(vec![(
        "dataset",
        table(vec![("a", scalar("nowhere")), ("b", scalar("cityscapes"))]),
    )]);
    let res = resolve_with("/w", &manifest, &resources, &vec![], &vec![]).unwrap();
    assert_eq!(res.missing, vec!["nowhere".to_string()]);
    assert_eq!(res.entries, vec![pair("/w/dataset/b", "/data/cs")]);
}

#[test]
fn scalar_at_top_level_is_malformed() {
    let manifest = table(vec![("k", scalar("oops"))]);
    let err = resolve_with("/w", &manifest, &vec![], &vec![], &vec![]).unwrap_err();
    assert_eq!(err, LinkerError::MalformedManifestEntry { key: "k".to_string() });
}

#[test]
fn non_boolean_instance_flag_is_malformed() {
    let resources = vec![pair("ckpt", "/data/ckpt")];
    let manifest = table(vec![("ckpt", table(vec![("instance", scalar("yes"))]))]);
    let err = resolve_with("/w", &manifest, &resources, &vec![], &vec![]).unwrap_err();
    assert_eq!(err, LinkerError::MalformedManifestEntry { key: "ckpt".to_string() });
}

#[test]
fn non_string_nested_value_is_malformed() {
    let manifest = table(vec![("dataset", table(vec![("k", ManifestNode::Bool(true))]))]);
    let err = resolve_with("/w", &manifest, &vec![], &vec![], &vec![]).unwrap_err();
    assert_eq!(err, LinkerError::MalformedManifestEntry { key: "k".to_string() });
}

#[test]
fn counting_instance_entries_matches_the_manifest() {
    let resources = vec![pair("a", "/pa"), pair("b", "/pb")];
    let manifest = table(vec![
        ("a", table(vec![("instance", ManifestNode::Bool(true))])),
        ("b", table(vec![("instance", ManifestNode::Bool(false))])),
        ("c", table(vec![("k", scalar("x"))])),
    ]);
    assert_eq!(count_instance_entries(&manifest, &resources), 1);
}

#[test]
fn resolving_twice_isolates_instances() {
    let resources = vec![pair("ckpt", "/data/ckpt")];
    let manifest = table(vec![("ckpt", table(vec![("instance", ManifestNode::Bool(true))]))]);
    let first = resolve("/w", &manifest, &resources, &vec![]).unwrap();
    let second = resolve("/w", &manifest, &resources, &vec![]).unwrap();
    let p1 = &first.entries[0].path;
    let p2 = &second.entries[0].path;
    assert!(p1.starts_with("/data/ckpt/ckpt-"));
    assert!(p2.starts_with("/data/ckpt/ckpt-"));
    assert_eq!(p1.len(), "/data/ckpt/ckpt-".len() + 9);
    assert_eq!(p2.len(), "/data/ckpt/ckpt-".len() + 9);
    assert_ne!(p1, p2, "two instance resolutions should draw different suffixes");
}

#[test]
fn two_instances_consume_suffixes_in_order() {
    let resources = vec![pair("a", "/pa"), pair("b", "/pb")];
    let manifest = table(vec![
        ("a", table(vec![("instance", ManifestNode::Bool(true))])),
        ("b", table(vec![("instance", ManifestNode::Bool(true))])),
    ]);
    let suffixes = vec!["AAAAAAAAA".to_string(), "BBBBBBBBB".to_string()];
    let res = resolve_with("/w", &manifest, &resources, &vec![], &suffixes).unwrap();
    assert_eq!(
        res.entries,
        vec![pair("a", "/pa/a-AAAAAAAAA"), pair("b", "/pb/b-BBBBBBBBB")]
    );
}
