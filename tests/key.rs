use ksplit::key::{derive_key, join_parts, map_doc_to_file, normalize_api_version};
use ksplit::node::{get_field, get_yaml_str, Node};

fn s(t: &str) -> Node {
    Node::Str(t.to_string())
}

fn hash(entries: Vec<(&str, Node)>) -> Node {
    Node::Hash(entries.into_iter().map(|(k, v)| (s(k), v)).collect())
}

fn entries(n: &Node) -> &Vec<(Node, Node)> {
    match n {
        Node::Hash(e) => e,
        _ => panic!("not a mapping"),
    }
}

#[test]
fn deployment_key() {
    let doc = hash(vec![
        ("apiVersion", s("apps/v1")),
        ("kind", s("Deployment")),
        ("metadata", hash(vec![("name", s("x")), ("namespace", s("ns"))])),
    ]);
    assert_eq!(derive_key(&doc), Some("apps__v1__Deployment__ns__x".to_string()));
    assert_eq!(map_doc_to_file(entries(&doc)), Some("apps__v1__Deployment__ns__x".to_string()));
}

#[test]
fn field_order_in_document_does_not_matter() {
    let doc = hash(vec![
        ("metadata", hash(vec![("namespace", s("ns")), ("name", s("x"))])),
        ("kind", s("Deployment")),
        ("apiVersion", s("apps/v1")),
    ]);
    assert_eq!(derive_key(&doc), Some("apps__v1__Deployment__ns__x".to_string()));
}

#[test]
fn missing_metadata_gives_no_key() {
    let doc = hash(vec![("apiVersion", s("v1")), ("kind", s("Pod"))]);
    assert_eq!(derive_key(&doc), None);
}

#[test]
fn metadata_not_a_mapping_gives_no_key() {
    let doc = hash(vec![("kind", s("Pod")), ("metadata", s("x"))]);
    assert_eq!(derive_key(&doc), None);
}

#[test]
fn metadata_without_name_gives_no_key() {
    let doc = hash(vec![("kind", s("Pod")), ("metadata", hash(vec![("namespace", s("ns"))]))]);
    assert_eq!(derive_key(&doc), None);
}

#[test]
fn generate_name_in_name_position() {
    let doc = hash(vec![
        ("apiVersion", s("v1")),
        ("kind", s("Pod")),
        ("metadata", hash(vec![("generateName", s("foo-"))])),
    ]);
    assert_eq!(derive_key(&doc), Some("v1__Pod__foo-".to_string()));
}

#[test]
fn name_wins_over_generate_name() {
    let doc = hash(vec![(
        "metadata",
        hash(vec![("generateName", s("foo-")), ("name", s("bar"))]),
    )]);
    assert_eq!(derive_key(&doc), Some("bar".to_string()));
}

#[test]
fn non_string_name_falls_back_to_generate_name() {
    let doc = hash(vec![(
        "metadata",
        hash(vec![("name", Node::Integer(3)), ("generateName", s("gen-"))]),
    )]);
    assert_eq!(derive_key(&doc), Some("gen-".to_string()));
}

#[test]
fn absent_and_non_string_parts_are_left_out() {
    let doc = hash(vec![
        ("apiVersion", Node::Integer(1)),
        ("kind", s("ConfigMap")),
        ("metadata", hash(vec![("name", s("cfg")), ("namespace", Node::Null)])),
    ]);
    assert_eq!(derive_key(&doc), Some("ConfigMap__cfg".to_string()));
}

#[test]
fn empty_parts_are_joined_as_they_are() {
    let only_name = hash(vec![("metadata", hash(vec![("name", s(""))]))]);
    assert_eq!(derive_key(&only_name), Some("".to_string()));
    let kind_and_name = hash(vec![("kind", s("K")), ("metadata", hash(vec![("name", s(""))]))]);
    assert_eq!(derive_key(&kind_and_name), Some("K__".to_string()));
}

#[test]
fn non_mapping_documents_have_no_key() {
    assert_eq!(derive_key(&s("apiVersion")), None);
    assert_eq!(derive_key(&Node::Array(vec![s("a")])), None);
    assert_eq!(derive_key(&Node::Null), None);
    assert_eq!(derive_key(&Node::Integer(7)), None);
}

#[test]
fn api_version_slashes_become_separators() {
    assert_eq!(normalize_api_version("apps/v1"), "apps__v1");
    assert_eq!(normalize_api_version("a/b/c"), "a__b__c");
    assert_eq!(normalize_api_version("v1"), "v1");
    assert_eq!(normalize_api_version(""), "");
    assert_eq!(normalize_api_version("/"), "__");
    assert_eq!(normalize_api_version("é/ü"), "é__ü");
}

#[test]
fn join_of_parts() {
    assert_eq!(join_parts(&vec![]), "");
    assert_eq!(join_parts(&vec!["a".to_string()]), "a");
    assert_eq!(
        join_parts(&vec!["a".to_string(), "b".to_string(), "c".to_string()]),
        "a__b__c"
    );
}

#[test]
fn string_field_lookup() {
    let doc = hash(vec![("kind", s("Pod")), ("count", Node::Integer(2)), ("kind", s("Later"))]);
    let e = entries(&doc);
    assert_eq!(get_yaml_str(e, "kind"), Some("Pod".to_string()));
    assert_eq!(get_yaml_str(e, "count"), None);
    assert_eq!(get_yaml_str(e, "missing"), None);
    assert!(matches!(get_field(e, "count"), Some(Node::Integer(2))));
    assert!(get_field(e, "missing").is_none());
}

#[test]
fn non_string_keys_are_not_fields() {
    let doc = Node::Hash(vec![(Node::Integer(1), s("one")), (Node::Real("2.0".to_string()), s("two"))]);
    let e = entries(&doc);
    assert_eq!(get_yaml_str(e, "1"), None);
    assert_eq!(get_yaml_str(e, "2.0"), None);
}
