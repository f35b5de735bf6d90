use hickory_sni_proxy::config::default_peek_timeout_ms;
use hickory_sni_proxy::Config;

fn string_pairs(table: Option<&toml::Value>) -> Vec<(String, String)> {
    match table.and_then(|v| v.as_table()) {
        Some(t) => t
            .iter()
            .map(|(k, v)| (k.clone(), v.as_str().unwrap().to_string()))
            .collect(),
        None => Vec::new(),
    }
}

fn config_from_toml(text: &str) -> Config {
    let doc: toml::Table = toml::from_str(text).unwrap();
    Config {
        listen: doc["listen"].as_str().unwrap().to_string(),
        backends: string_pairs(doc.get("backends")),
        routes: string_pairs(doc.get("routes")),
        default_backend: doc.get("default_backend").map(|v| v.as_str().unwrap().to_string()),
        peek_timeout_ms: doc
            .get("peek_timeout_ms")
            .map(|v| v.as_integer().unwrap() as u64)
            .unwrap_or_else(default_peek_timeout_ms),
    }
}

#[test]
fn parses_example_config() {
    let text = r#"
listen = "0.0.0.0:8443"

[backends]
bd-relay = "10.10.0.1:443"
direct = "8.8.8.8:443"

[routes]
"*.bkash.com" = "bd-relay"
"*.nagad.com" = "bd-relay"
"*.google.com" = "direct"
"api.example.com" = "direct"
"#;
    let cfg = config_from_toml(text);
    assert_eq!(cfg.listen, "0.0.0.0:8443");
    let table = cfg.route_table().unwrap();
    assert_eq!(table.resolve("pay.bkash.com").unwrap(), "10.10.0.1:443");
}

#[test]
fn default_peek_timeout_is_five_seconds() {
    assert_eq!(default_peek_timeout_ms(), 5000);
}

#[test]
fn route_table_uses_the_default_backend() {
    let cfg = Config {
        listen: "127.0.0.1:443".to_string(),
        backends: vec![("d".to_string(), "10.0.0.9:443".to_string())],
        routes: vec![],
        default_backend: Some("d".to_string()),
        peek_timeout_ms: 100,
    };
    let table = cfg.route_table().unwrap();
    assert_eq!(table.resolve("anything.example").unwrap(), "10.0.0.9:443");
}
