use linker::manifest::ManifestNode;

/// Read a manifest file's text into the library's node tree, as the
/// program does before resolving.
fn parse_manifest(text: &str) -> ManifestNode {
    let top: toml::Table = toml::from_str(text).expect("manifest should parse");
    let resource = top.get("resource").expect("manifest should hold a [resource] table");
    to_node(resource)
}

fn to_node(value: &toml::Value) -> ManifestNode {
    match value {
        toml::Value::String(s) => ManifestNode::Scalar(s.clone()),
        toml::Value::Boolean(b) => ManifestNode::Bool(*b),
        toml::Value::Table(t) => ManifestNode::Table(
            t.iter().map(|(k, v)| (k.clone(), to_node(v))).collect(),
        ),
        other => ManifestNode::Scalar(other.to_string()),
    }
}

#[test]
fn test_paser() {
    let manifest = parse_manifest(
        r#"
        [resource]
        name = "test"
        path = "test"
        "#,
    );
    assert_eq!(manifest.get("name"), Some(&ManifestNode::Scalar("test".to_string())));
    assert_eq!(manifest.get("path"), Some(&ManifestNode::Scalar("test".to_string())));
}

#[test]
fn test_checkpoint() {
    let manifest = parse_manifest(
        r#"
        [resource]

        [resource.checkpoint]
        instance = true
        "#,
    );
    let checkpoint = manifest.get("checkpoint").expect("checkpoint entry should be present");
    assert_eq!(checkpoint.get("instance"), Some(&ManifestNode::Bool(true)));
}

#[test]
fn test_dataset() {
    let manifest = parse_manifest(
        r#"
        [resource]

        [resource.dataset]
        cityscapes = "cityscapes"
        ade20k = "/home/ade20k"
        "#,
    );
    let dataset = manifest.get("dataset").expect("dataset entry should be present");
    assert_eq!(dataset.get("cityscapes"), Some(&ManifestNode::Scalar("cityscapes".to_string())));
    assert_eq!(dataset.get("ade20k"), Some(&ManifestNode::Scalar("/home/ade20k".to_string())));
}

#[test]
fn test_resource() {
    let manifest = parse_manifest(
        r#"
        [resource]
        checkpoint = { instance = true }
        dataset = { cityscapes = "cityscapes" }
        "#,
    );
    let checkpoint = manifest.get("checkpoint").expect("checkpoint entry should be present");
    assert_eq!(checkpoint.get("instance"), Some(&ManifestNode::Bool(true)));
    let dataset = manifest.get("dataset").expect("dataset entry should be present");
    assert_eq!(dataset.get("cityscapes"), Some(&ManifestNode::Scalar("cityscapes".to_string())));
}
