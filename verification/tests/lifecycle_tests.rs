use linker::manifest::ManifestNode;
use linker::registry::{Config, ResourcePair};
use linker::utils::config_path_for_home;

fn pair(name: &str, path: &str) -> ResourcePair {
    ResourcePair { name: name.to_string(), path: path.to_string() }
}

fn table(entries: Vec<(&str, ManifestNode)>) -> ManifestNode {
    ManifestNode::Table(entries.into_iter().map(|(k, v)| (k.to_string(), v)).collect())
}

#[test]
fn add_link_records_the_resolved_set() {
    let mut config = Config::empty();
    config.add_resource("a", &"/pa".to_string());
    let manifest = table(vec![("a", table(vec![("instance", ManifestNode::Bool(false))]))]);
    let res = config.add_link("/w", &manifest, &vec![]).unwrap();
    assert_eq!(res.entries, vec![pair("a", "/pa")]);
    assert_eq!(config.links.len(), 1);
    assert_eq!(config.links[0].dir, "/w");
    assert_eq!(config.links[0].link, vec![pair("a", "/pa")]);
}

#[test]
fn relink_replaces_never_accumulates() {
    let mut config = Config::empty();
    config.add_resource("a", &"/pa".to_string());
    config.add_resource("b", &"/pb".to_string());
    let manifest_a = table(vec![("a", table(vec![("instance", ManifestNode::Bool(false))]))]);
    let manifest_b = table(vec![("b", table(vec![("instance", ManifestNode::Bool(false))]))]);

    let (removed_first, _) = config.link("/w", &manifest_a, &vec![]).unwrap();
    assert!(removed_first.is_empty());
    assert_eq!(config.links.len(), 1);
    assert_eq!(config.links[0].link, vec![pair("a", "/pa")]);

    let (removed_second, fresh) = config.link("/w", &manifest_b, &vec![]).unwrap();
    assert_eq!(removed_second, vec![pair("a", "/pa")], "the old set is handed back for teardown");
    assert_eq!(fresh.entries, vec![pair("b", "/pb")]);
    assert_eq!(config.links.len(), 1, "one link-set per directory, never two");
    assert_eq!(config.links[0].dir, "/w");
    assert_eq!(config.links[0].link, vec![pair("b", "/pb")]);
}

#[test]
fn relink_for_another_directory_keeps_both() {
    let mut config = Config::empty();
    config.add_resource("a", &"/pa".to_string());
    let manifest = table(vec![("a", table(vec![("instance", ManifestNode::Bool(false))]))]);
    config.link("/w1", &manifest, &vec![]).unwrap();
    config.link("/w2", &manifest, &vec![]).unwrap();
    assert_eq!(config.links.len(), 2);
}

#[test]
fn malformed_manifest_leaves_registry_untouched() {
    let mut config = Config::empty();
    config.add_resource("a", &"/pa".to_string());
    let manifest = table(vec![("a", table(vec![("instance", ManifestNode::Bool(false))]))]);
    config.link("/w", &manifest, &vec![]).unwrap();
    let malformed = table(vec![("k", ManifestNode::Scalar("oops".to_string()))]);
    assert!(config.link("/w", &malformed, &vec![]).is_err());
    assert_eq!(config.links.len(), 1);
    assert_eq!(config.links[0].link, vec![pair("a", "/pa")]);
}

#[test]
fn default_registry_path_sits_under_home() {
    assert_eq!(config_path_for_home("/home/u"), "/home/u/.linker/config.json");
}
