use duotunnel::ctld_app::{
    configured_database_url, healthz_response, legacy_server_config_path, next_layer_retry_secs,
    select_source, yaml_source_path, ConfigSourceSpec, YamlSourceWithoutPath,
};

fn source(kind: &str, priority: i64, path: Option<&str>, url: Option<&str>) -> ConfigSourceSpec {
    ConfigSourceSpec {
        kind: kind.into(),
        priority,
        path: path.map(|p| p.to_string()),
        database_url: url.map(|u| u.to_string()),
    }
}

#[test]
fn highest_priority_source_of_a_kind_is_used() {
    let sources = vec![
        source("YAML", 5, Some("a.yaml"), None),
        source("sqlite", 1, None, Some("sqlite://one")),
        source("yaml", 5, Some("b.yaml"), None),
        source("Sqlite", 3, None, None),
        source("yaml", 2, Some("c.yaml"), None),
    ];
    assert_eq!(select_source(&sources, "yaml"), Some(2));
    assert_eq!(select_source(&sources, "sqlite"), Some(3));
    assert_eq!(select_source(&sources, "etcd"), None);
    // The chosen SQLite source names no URL: the default is used.
    assert_eq!(configured_database_url(&sources, "sqlite://default"), "sqlite://default");
    assert_eq!(configured_database_url(&sources[..2], "sqlite://default"), "sqlite://one");
    assert_eq!(yaml_source_path(&sources, Some("legacy.yaml")), Ok(Some("b.yaml".to_string())));
}

#[test]
fn yaml_source_falls_back_to_legacy_path() {
    assert_eq!(yaml_source_path(&[], Some("legacy.yaml")), Ok(Some("legacy.yaml".to_string())));
    assert_eq!(yaml_source_path(&[], None), Ok(None));
    let no_path = vec![source("yaml", 0, None, None)];
    assert_eq!(yaml_source_path(&no_path, Some("x")), Err(YamlSourceWithoutPath));
    assert_eq!(YamlSourceWithoutPath.message(), "YAML config source requires path");
    assert_eq!(legacy_server_config_path(Some("  server.yaml ")), Some("server.yaml".to_string()));
    assert_eq!(legacy_server_config_path(Some("   ")), None);
    assert_eq!(legacy_server_config_path(None), None);
}

#[test]
fn layer_retry_doubles_up_to_thirty_seconds() {
    assert_eq!(next_layer_retry_secs(1), 2);
    assert_eq!(next_layer_retry_secs(8), 16);
    assert_eq!(next_layer_retry_secs(16), 30);
    assert_eq!(next_layer_retry_secs(30), 30);
}

#[test]
fn healthz_answers() {
    assert_eq!(
        healthz_response("GET /healthz HTTP/1.1\r\n", true),
        "HTTP/1.1 200 OK\r\nContent-Type: text/plain\r\nContent-Length: 3\r\n\r\nok\n"
    );
    assert_eq!(
        healthz_response("GET /healthz", false),
        "HTTP/1.1 503 Service Unavailable\r\nContent-Type: text/plain\r\nContent-Length: 10\r\n\r\nnot ready\n"
    );
    assert_eq!(
        healthz_response("GET /metrics", true),
        "HTTP/1.1 404 Not Found\r\nContent-Type: text/plain\r\nContent-Length: 10\r\n\r\nnot found\n"
    );
    assert!(healthz_response("", true).starts_with("HTTP/1.1 404"));
}
