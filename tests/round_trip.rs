use yaml_rust::{YamlEmitter, YamlLoader};

#[test]
fn emitted_document_parses_back_equal() {
    let text = "apiVersion: apps/v1\nkind: Deployment\nmetadata:\n  name: x\n  namespace: ns\nspec:\n  replicas: 3\n  ratio: 0.5\n  paused: false\n  tags: [a, b]\n  note: ~\n";
    let docs = YamlLoader::load_from_str(text).unwrap();
    assert_eq!(docs.len(), 1);
    let mut out = String::new();
    YamlEmitter::new(&mut out).dump(&docs[0]).unwrap();
    let again = YamlLoader::load_from_str(&out).unwrap();
    assert_eq!(again.len(), 1);
    assert_eq!(again[0], docs[0]);
}
