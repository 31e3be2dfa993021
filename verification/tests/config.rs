use codex_mem9::config::{
    codex_config_path, env_value, home_dir, load_runtime_config, missing_tenant_id_message,
    parse_u64, service_config_path, ConfigError,
    EnvironmentValues, FileConfig, DEFAULT_API_URL, DEFAULT_POLL_INTERVAL_SECONDS,
};

fn env_with_home(home: &str) -> EnvironmentValues {
    EnvironmentValues {
        home: Some(home.to_string()),
        ..EnvironmentValues::default()
    }
}

#[test]
fn reads_tenant_from_codex_config_when_environment_is_missing() {
    let env = env_with_home("/home/u");
    let file = FileConfig {
        tenant_id: Some("codex-tenant".to_string()),
        api_url: Some("https://codex.example".to_string()),
        ..FileConfig::default()
    };
    let config = load_runtime_config(&env, &file, &FileConfig::default()).unwrap();
    assert_eq!(config.tenant_id, "codex-tenant");
    assert_eq!(config.api_url, "https://codex.example");
}

#[test]
fn prefers_environment_before_codex_config() {
    let env = EnvironmentValues {
        tenant_id: Some("env-tenant".to_string()),
        api_url: Some("https://env.example".to_string()),
        ..env_with_home("/home/u")
    };
    let file = FileConfig {
        tenant_id: Some("codex-tenant".to_string()),
        api_url: Some("https://codex.example".to_string()),
        ..FileConfig::default()
    };
    let config = load_runtime_config(&env, &file, &FileConfig::default()).unwrap();
    assert_eq!(config.tenant_id, "env-tenant");
    assert_eq!(config.api_url, "https://env.example");
}

#[test]
fn missing_tenant_error_points_to_mem9_setup_and_codex_config() {
    let env = env_with_home("/home/u");
    let error = load_runtime_config(&env, &FileConfig::default(), &FileConfig::default()).unwrap_err();
    assert_eq!(error, ConfigError::MissingTenantId);
    let error = error.message();
    assert!(error.contains("mem9-setup"));
    assert!(error.contains("~/.codex/config.toml"));
    assert!(error.contains("[codex_mem9].tenant_id"));
    assert!(error.contains("brew services"));
}

#[test]
fn applies_shared_codex_config_to_optional_runtime_fields() {
    let env = env_with_home("/home/u");
    let file = FileConfig {
        tenant_id: Some("codex-tenant".to_string()),
        api_url: Some("https://codex.example".to_string()),
        codex_memories_dir: Some("/home/u/shared-memories".to_string()),
        state_path: Some("/home/u/shared-state.json".to_string()),
        poll_interval_seconds: Some(23),
        ..FileConfig::default()
    };
    let config = load_runtime_config(&env, &file, &FileConfig::default()).unwrap();
    assert_eq!(config.codex_memories_dir, "/home/u/shared-memories");
    assert_eq!(config.state_path, "/home/u/shared-state.json");
    assert_eq!(config.poll_interval_seconds, 23);
}

#[test]
fn zero_poll_interval_falls_back_to_default() {
    let env = env_with_home("/home/u");
    let file = FileConfig {
        tenant_id: Some("codex-tenant".to_string()),
        poll_interval_seconds: Some(0),
        ..FileConfig::default()
    };
    let config = load_runtime_config(&env, &file, &FileConfig::default()).unwrap();
    assert_eq!(config.poll_interval_seconds, DEFAULT_POLL_INTERVAL_SECONDS);
}

#[test]
fn default_state_path_uses_codex_directory_without_personal_identifier() {
    let env = EnvironmentValues {
        tenant_id: Some("tenant".to_string()),
        ..env_with_home("/tmp/home-xyz")
    };
    let config = load_runtime_config(&env, &FileConfig::default(), &FileConfig::default()).unwrap();
    assert_eq!(config.state_path, "/tmp/home-xyz/.codex/codex-mem9/state.json");
}

#[test]
fn defaults_and_blank_values() {
    let env = EnvironmentValues {
        tenant_id: Some("t".to_string()),
        api_url: Some("   ".to_string()),
        api_key: Some("".to_string()),
        poll_interval_seconds: Some(" 7".to_string()),
        ..EnvironmentValues::default()
    };
    let config = load_runtime_config(&env, &FileConfig::default(), &FileConfig::default()).unwrap();
    assert_eq!(config.api_url, DEFAULT_API_URL);
    assert_eq!(config.api_key, None);
    assert_eq!(config.codex_memories_dir, "~/.codex/memories");
    assert_eq!(config.poll_interval_seconds, DEFAULT_POLL_INTERVAL_SECONDS);
    assert_eq!(home_dir(&env), "~");
    assert_eq!(codex_config_path(&env), "~/.codex/config.toml");
}

#[test]
fn environment_poll_interval_and_paths_win() {
    let env = EnvironmentValues {
        tenant_id: Some("t".to_string()),
        poll_interval_seconds: Some("+42".to_string()),
        codex_memories_dir: Some("/m".to_string()),
        state_path: Some("/s.json".to_string()),
        codex_config_path: Some("/c.toml".to_string()),
        ..env_with_home("/h")
    };
    let file = FileConfig {
        poll_interval_seconds: Some(9),
        codex_memories_dir: Some("/fm".to_string()),
        ..FileConfig::default()
    };
    let config = load_runtime_config(&env, &file, &FileConfig::default()).unwrap();
    assert_eq!(config.poll_interval_seconds, 42);
    assert_eq!(config.codex_memories_dir, "/m");
    assert_eq!(config.state_path, "/s.json");
    assert_eq!(codex_config_path(&env), "/c.toml");
}

#[test]
fn parses_u64_like_from_str() {
    assert_eq!(parse_u64("0"), Some(0));
    assert_eq!(parse_u64("+15"), Some(15));
    assert_eq!(parse_u64("18446744073709551615"), Some(u64::MAX));
    assert_eq!(parse_u64("18446744073709551616"), None);
    assert_eq!(parse_u64(""), None);
    assert_eq!(parse_u64("+"), None);
    assert_eq!(parse_u64("-1"), None);
    assert_eq!(parse_u64("1 "), None);
    assert_eq!(parse_u64("++1"), None);
}

#[test]
fn blank_environment_values_count_as_unset() {
    assert_eq!(env_value(&Some(" \t\n".to_string())), None);
    assert_eq!(env_value(&Some(" x ".to_string())), Some(" x ".to_string()));
    assert_eq!(env_value(&None), None);
}

#[test]
fn missing_tenant_message_is_the_error_text() {
    let text = missing_tenant_id_message();
    assert_eq!(text, ConfigError::MissingTenantId.message());
    assert!(text.starts_with("missing MEM9_TENANT_ID; run the mem9-setup skill first."));
    assert!(text.ends_with("from the default shell environment."));
}

#[test]
fn service_config_file_serves_the_brew_service() {
    let env = env_with_home("/h");
    assert_eq!(
        service_config_path(&env),
        "/h/Library/Application Support/ai.dmego.codex-mem9/config.toml"
    );
    let service = FileConfig {
        tenant_id: Some("tid".to_string()),
        api_url: Some("https://api.mem9.ai".to_string()),
        ..FileConfig::default()
    };
    let config = load_runtime_config(&env, &FileConfig::default(), &service).unwrap();
    assert_eq!(config.tenant_id, "tid");
    assert_eq!(config.api_url, "https://api.mem9.ai");
    assert_eq!(config.api_key, None);
    assert_eq!(config.codex_memories_dir, "/h/.codex/memories");
}

#[test]
fn codex_config_comes_before_the_service_file() {
    let env = EnvironmentValues {
        api_key: Some("env-key".to_string()),
        ..env_with_home("/h")
    };
    let file = FileConfig {
        tenant_id: Some("codex-tenant".to_string()),
        poll_interval_seconds: Some(0),
        ..FileConfig::default()
    };
    let service = FileConfig {
        tenant_id: Some("service-tenant".to_string()),
        api_url: Some("https://service.example".to_string()),
        api_key: Some("service-key".to_string()),
        poll_interval_seconds: Some(40),
        ..FileConfig::default()
    };
    let config = load_runtime_config(&env, &file, &service).unwrap();
    assert_eq!(config.tenant_id, "codex-tenant");
    assert_eq!(config.api_url, "https://service.example");
    assert_eq!(config.api_key, Some("env-key".to_string()));
    assert_eq!(config.poll_interval_seconds, DEFAULT_POLL_INTERVAL_SECONDS);
    assert_eq!(
        service_config_path(&EnvironmentValues::default()),
        "~/Library/Application Support/ai.dmego.codex-mem9/config.toml"
    );
}
