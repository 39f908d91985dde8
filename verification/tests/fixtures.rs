use skald::composer::compose_all;
use skald::fixtures::{
    generate_large, generate_large_json, MEDIUM_HELM, MEDIUM_HELM_JSON, SMALL_POD, SMALL_POD_JSON,
};

#[test]
fn small_pod_parses_with_skald() {
    compose_all(SMALL_POD).unwrap();
}

#[test]
fn small_pod_parses_with_yaml_rust2() {
    yaml_rust2::YamlLoader::load_from_str(SMALL_POD).unwrap();
}

#[test]
fn medium_helm_parses_with_skald() {
    compose_all(MEDIUM_HELM).unwrap();
}

#[test]
fn medium_helm_parses_with_yaml_rust2() {
    yaml_rust2::YamlLoader::load_from_str(MEDIUM_HELM).unwrap();
}

#[test]
fn large_parses_with_skald() {
    let large = generate_large(100);
    compose_all(&large).unwrap();
}

#[test]
fn large_parses_with_yaml_rust2() {
    let large = generate_large(100);
    yaml_rust2::YamlLoader::load_from_str(&large).unwrap();
}

#[test]
fn json_equivalents_parse_with_serde_json() {
    serde_json::from_str::<serde_json::Value>(SMALL_POD_JSON).unwrap();
    serde_json::from_str::<serde_json::Value>(MEDIUM_HELM_JSON).unwrap();
    let large_json = generate_large_json(100);
    serde_json::from_str::<serde_json::Value>(&large_json).unwrap();
}

#[test]
fn large_generator_produces_expected_size() {
    let large = generate_large(800);
    assert!(large.len() > 80_000, "expected >80KB, got {}", large.len());
    assert!(
        large.len() < 200_000,
        "expected <200KB, got {}",
        large.len()
    );
}

#[test]
fn fixture_sizes_are_in_expected_ranges() {
    assert!(
        SMALL_POD.len() > 100 && SMALL_POD.len() < 500,
        "SMALL_POD: {} bytes",
        SMALL_POD.len()
    );
    assert!(
        MEDIUM_HELM.len() > 2_000 && MEDIUM_HELM.len() < 10_000,
        "MEDIUM_HELM: {} bytes",
        MEDIUM_HELM.len()
    );
}
