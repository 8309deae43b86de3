use lightningllm::config::{
    gpu_layer_count, Config, ConfigError, InferenceConfig, ModelTier, Overrides, TierTable,
};

fn tier(name: &str, template: &str) -> ModelTier {
    ModelTier {
        name: name.to_string(),
        url: format!("https://example.org/{}", name),
        filename: format!("{}.gguf", name),
        n_gpu_layers: 99,
        template: template.to_string(),
    }
}

fn config(keys: &[&str]) -> Config<f32> {
    let mut tiers = TierTable::new();
    for key in keys {
        tiers.insert(key.to_string(), tier(&format!("model-{}", key), "qwen"));
    }
    Config {
        default_tier: "medium".to_string(),
        memory_limit_mb: 1024,
        tiers,
        inference: InferenceConfig {
            n_ctx: 2048,
            temp: 0.7,
            top_p: 0.9,
            use_mmap: true,
            use_mlock: false,
        },
    }
}

fn nothing() -> Overrides<f32> {
    Overrides { tier: None, temp: None, top_p: None, ctx: None, gpu_layers: None }
}

#[test]
fn default_tier_is_selected() {
    let selection = config(&["pico", "medium"]).select(nothing()).unwrap();
    assert_eq!(selection.tier.name, "model-medium");
    assert_eq!(selection.tier.url, "https://example.org/model-medium");
    assert_eq!(selection.tier.filename, "model-medium.gguf");
    assert_eq!(selection.tier.template, "qwen");
    assert_eq!(selection.tier.n_gpu_layers, 99);
    assert_eq!(selection.inference.n_ctx, 2048);
    assert_eq!(selection.inference.temp, 0.7);
    assert_eq!(selection.inference.top_p, 0.9);
    assert!(selection.inference.use_mmap);
    assert!(!selection.inference.use_mlock);
}

#[test]
fn overrides_take_the_place_of_the_configuration() {
    let overrides = Overrides {
        tier: Some("pico".to_string()),
        temp: Some(0.1),
        top_p: Some(0.95),
        ctx: Some(512),
        gpu_layers: Some(-1),
    };
    let selection = config(&["pico", "medium"]).select(overrides).unwrap();
    assert_eq!(selection.tier.name, "model-pico");
    assert_eq!(selection.tier.n_gpu_layers, -1);
    assert_eq!(selection.inference.n_ctx, 512);
    assert_eq!(selection.inference.temp, 0.1);
    assert_eq!(selection.inference.top_p, 0.95);
    assert!(selection.inference.use_mmap);
}

#[test]
fn missing_tier_is_an_error() {
    let overrides = Overrides { tier: Some("huge".to_string()), ..nothing() };
    let error = config(&["pico", "medium"]).select(overrides).unwrap_err();
    assert_eq!(error.message(), "Tier 'huge' not found in config.json");
    let ConfigError::TierNotFound(key) = error;
    assert_eq!(key, "huge");
}

#[test]
fn missing_default_tier_is_an_error() {
    let error = config(&["pico"]).select(nothing()).unwrap_err();
    assert_eq!(error.message(), "Tier 'medium' not found in config.json");
}

#[test]
fn layer_counts_wrap_around() {
    assert_eq!(gpu_layer_count(0), 0);
    assert_eq!(gpu_layer_count(99), 99);
    assert_eq!(gpu_layer_count(i32::MAX), 2147483647);
    assert_eq!(gpu_layer_count(-1), u32::MAX);
    assert_eq!(gpu_layer_count(i32::MIN), 2147483648);
}

#[test]
fn a_key_holds_one_tier() {
    let mut table = TierTable::new();
    assert!(table.get("a").is_none());
    table.insert("a".to_string(), tier("one", "qwen"));
    table.insert("b".to_string(), tier("two", "qwen"));
    table.insert("a".to_string(), tier("three", "llama"));
    assert_eq!(table.get("a").unwrap().name, "three");
    assert_eq!(table.get("b").unwrap().name, "two");
    assert!(table.get("A").is_none());
    assert_eq!(table.list_tiers().len(), 3);
}

#[test]
fn listing_line_is_padded() {
    let mut table = TierTable::new();
    table.insert("pico".to_string(), tier("SmolLM2", "qwen"));
    table.insert("a-very-long-tier-key".to_string(), tier("Big", "llama"));
    table.insert("été".to_string(), tier("Summer", "llama"));
    assert_eq!(
        table.list_tiers(),
        vec![
            "Available model tiers:",
            "  - pico            : SmolLM2 (template: qwen)",
            "  - a-very-long-tier-key : Big (template: llama)",
            "  - été             : Summer (template: llama)",
        ]
    );
}

#[test]
fn listing_goes_by_size() {
    let keys = [
        "zeta", "xxl", "nano", "xl", "large", "alpha", "medium", "small", "mini", "tiny", "micro", "pico",
    ];
    let order = config(&keys).tiers.listing_order();
    let listed: Vec<&str> = order.iter().map(|i| keys[*i]).collect();
    assert_eq!(
        listed,
        vec![
            "pico", "nano", "micro", "tiny", "mini", "small", "medium", "large", "xl", "xxl", "zeta", "alpha"
        ]
    );
}

#[test]
fn empty_listing() {
    let table = TierTable::new();
    assert_eq!(table.list_tiers(), vec!["Available model tiers:"]);
    assert!(table.listing_order().is_empty());
}
