use linker::registry::{Config, LinkerLog, ResourcePair};

fn pair(name: &str, path: &str) -> ResourcePair {
    ResourcePair { name: name.to_string(), path: path.to_string() }
}

#[test]
fn add_resource_then_lookup_round_trips() {
    let mut config = Config::empty();
    config.add_resource("x", &"/p".to_string());
    let found = config.get_resource("x").expect("resource should be present");
    assert_eq!(found.name, "x");
    assert_eq!(found.path, "/p");
    assert!(config.get_resource("y").is_none());
}

#[test]
fn add_resource_updates_in_place() {
    let mut config = Config::empty();
    config.add_resource("x", &"/p".to_string());
    config.add_resource("y", &"/q".to_string());
    config.add_resource("x", &"/new".to_string());
    assert_eq!(config.resources.len(), 2);
    assert_eq!(config.get_resource("x").unwrap().path, "/new");
    assert_eq!(config.get_resource("y").unwrap().path, "/q");
}

#[test]
fn remove_resource_removes_only_the_named_one() {
    let mut config = Config::empty();
    config.add_resource("x", &"/p".to_string());
    config.add_resource("y", &"/q".to_string());
    config.links.push(LinkerLog { dir: "/w".to_string(), link: vec![pair("a", "/pa")] });
    config.remove_resource(Some("x"), false);
    assert_eq!(config.resources.len(), 1);
    assert!(config.get_resource("x").is_none());
    assert_eq!(config.get_resource("y").unwrap().path, "/q");
    assert_eq!(config.links.len(), 1);
}

#[test]
fn remove_all_resources_leaves_links_untouched() {
    let mut config = Config::empty();
    config.add_resource("x", &"/p".to_string());
    config.add_resource("y", &"/q".to_string());
    config.links.push(LinkerLog { dir: "/w".to_string(), link: vec![pair("a", "/pa")] });
    config.remove_resource(None, true);
    assert!(config.resources.is_empty());
    assert_eq!(config.links.len(), 1);
    assert_eq!(config.links[0].dir, "/w");
}

#[test]
fn remove_resource_without_name_or_all_changes_nothing() {
    let mut config = Config::empty();
    config.add_resource("x", &"/p".to_string());
    config.remove_resource(None, false);
    assert_eq!(config.resources.len(), 1);
}

#[test]
fn remove_missing_resource_changes_nothing() {
    let mut config = Config::empty();
    config.add_resource("x", &"/p".to_string());
    config.remove_resource(Some("ghostly"), false);
    assert_eq!(config.resources.len(), 1);
}

#[test]
fn remove_link_returns_recorded_entries() {
    let mut config = Config::empty();
    config.links.push(LinkerLog {
        dir: "/w1".to_string(),
        link: vec![pair("a", "/pa"), pair("b", "/pb")],
    });
    config.links.push(LinkerLog { dir: "/w2".to_string(), link: vec![pair("c", "/pc")] });
    let removed = config.remove_link("/w1");
    assert_eq!(removed, vec![pair("a", "/pa"), pair("b", "/pb")]);
    assert_eq!(config.links.len(), 1);
    assert_eq!(config.links[0].dir, "/w2");
}

#[test]
fn remove_link_for_unknown_directory_is_a_no_op() {
    let mut config = Config::empty();
    config.links.push(LinkerLog { dir: "/w1".to_string(), link: vec![pair("a", "/pa")] });
    let removed = config.remove_link("/elsewhere");
    assert!(removed.is_empty());
    assert_eq!(config.links.len(), 1);
}
