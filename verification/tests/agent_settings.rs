use buzz::agent_settings::{
    apply_settings, config_from_documents, config_from_texts, json_string, reads_project_file,
    RuntimeFileConfig,
};
use buzz::json::{get, merge_settings, parse_json, JsonValue};

fn parse(json: &str) -> Option<JsonValue> {
    parse_json(json)
}

fn parse_settings(json: &str) -> RuntimeFileConfig {
    let val = parse(json).unwrap();
    let mut cfg = RuntimeFileConfig::default();
    apply_settings(&mut cfg, &val);
    cfg
}

fn merged(user: &str, project: &str) -> RuntimeFileConfig {
    let merged = merge_settings(parse(user), parse(project)).expect("merged settings");
    let mut cfg = RuntimeFileConfig::default();
    apply_settings(&mut cfg, &merged);
    cfg
}

#[test]
fn parse_model_from_settings() {
    let cfg = parse_settings(r#"{"model": "sonnet-4-20250514"}"#);
    assert_eq!(cfg.model.as_deref(), Some("sonnet-4-20250514"));
}

#[test]
fn effort_level_maps_to_thinking_effort() {
    let cfg = parse_settings(r#"{"effortLevel": "high"}"#);
    assert_eq!(cfg.thinking_effort.as_deref(), Some("high"));
    assert!(cfg.extra_value("effortLevel").is_none());
}

#[test]
fn always_thinking_enabled_appears_in_extra() {
    let cfg = parse_settings(r#"{"alwaysThinkingEnabled": true}"#);
    assert_eq!(
        cfg.extra_value("alwaysThinkingEnabled").as_deref(),
        Some("true"),
        "alwaysThinkingEnabled should appear in extra"
    );
}

#[test]
fn env_vars_flattened_in_extra() {
    let cfg = parse_settings(
        r#"{"env": {"CLAUDE_CODE_EFFORT_LEVEL": "high", "ANTHROPIC_MODEL": "opus-4"}}"#,
    );
    assert_eq!(
        cfg.extra_value("env.CLAUDE_CODE_EFFORT_LEVEL").as_deref(),
        Some("high"),
        "env.CLAUDE_CODE_EFFORT_LEVEL should appear in extra"
    );
    assert_eq!(
        cfg.extra_value("env.ANTHROPIC_MODEL").as_deref(),
        Some("opus-4"),
        "env.ANTHROPIC_MODEL should appear in extra"
    );
}

#[test]
fn arbitrary_env_var_surfaced_without_schema() {
    let cfg = parse_settings(r#"{"env": {"MY_CUSTOM_VAR": "hello"}}"#);
    assert_eq!(
        cfg.extra_value("env.MY_CUSTOM_VAR").as_deref(),
        Some("hello"),
        "arbitrary env vars should appear in extra"
    );
}

#[test]
fn enabled_plugins_flattened_in_extra() {
    let cfg = parse_settings(r#"{"enabledPlugins": {"plugin-a": true, "plugin-b": true}}"#);
    assert!(
        cfg.extra_value("enabledPlugins.plugin-a").is_some()
            || cfg.extra_value("enabledPlugins.plugin-b").is_some(),
        "enabledPlugins entries should appear as enabledPlugins.<name> in extra"
    );
}

#[test]
fn parse_permissions_and_hooks() {
    let cfg = parse_settings(
        r#"{"permissions": {"default": "bypassPermissions"}, "hooks": {"pre-commit": {}}}"#,
    );
    assert_eq!(
        cfg.extra_value("permissions.default").as_deref(),
        Some("bypassPermissions")
    );
    assert_eq!(cfg.extra_value("hooks.pre-commit").as_deref(), Some("{...}"));
}

#[test]
fn parse_mcp_servers() {
    let json =
        r#"{"mcpServers": {"filesystem": {"command": "npx"}, "github": {"command": "gh"}}}"#;
    let cfg = config_from_documents(None, None, parse(json)).expect("config");
    assert_eq!(cfg.extensions.len(), 2);
    assert_eq!(cfg.extensions[0].name, "filesystem");
    assert_eq!(cfg.extensions[1].name, "github");
    assert!(cfg.extensions.iter().all(|e| e.kind == "mcp" && e.enabled));
}

#[test]
fn empty_settings_returns_defaults() {
    let cfg = parse_settings("{}");
    assert!(cfg.model.is_none());
    assert!(cfg.thinking_effort.is_none());
    assert!(cfg.system_prompt.is_none());
}

#[test]
fn model_not_duplicated_in_extra() {
    let cfg = parse_settings(r#"{"model": "opus-4", "effortLevel": "high"}"#);
    assert!(cfg.extra_value("model").is_none());
    assert!(cfg.extra_value("effortLevel").is_none());
}

#[test]
fn project_settings_win_over_user_settings() {
    let cfg = merged(r#"{"effortLevel": "low"}"#, r#"{"effortLevel": "medium"}"#);
    assert_eq!(cfg.thinking_effort.as_deref(), Some("medium"));
}

#[test]
fn user_settings_survive_keys_the_project_does_not_set() {
    let cfg = merged(
        r#"{"model": "opus-4", "effortLevel": "low"}"#,
        r#"{"effortLevel": "high"}"#,
    );
    assert_eq!(cfg.model.as_deref(), Some("opus-4"));
    assert_eq!(cfg.thinking_effort.as_deref(), Some("high"));
}

#[test]
fn objects_merge_rather_than_replace() {
    let cfg = merged(
        r#"{"env": {"A": "user-a", "B": "user-b"}}"#,
        r#"{"env": {"B": "project-b"}}"#,
    );
    assert_eq!(cfg.extra_value("env.A").as_deref(), Some("user-a"));
    assert_eq!(cfg.extra_value("env.B").as_deref(), Some("project-b"));
}

#[test]
fn either_file_alone_is_used_as_is() {
    let only_user = merge_settings(parse(r#"{"model": "u"}"#), None);
    assert_eq!(
        only_user.as_ref().and_then(|v| get(v, "model")),
        Some(&JsonValue::Str("u".to_string()))
    );
    let only_project = merge_settings(None, parse(r#"{"model": "p"}"#));
    assert_eq!(
        only_project.as_ref().and_then(|v| get(v, "model")),
        Some(&JsonValue::Str("p".to_string()))
    );
    assert!(merge_settings(None, None).is_none());
}

#[test]
fn unknown_future_field_appears_in_extra() {
    let cfg = parse_settings(r#"{"someNewClaudeField": "value"}"#);
    assert_eq!(
        cfg.extra_value("someNewClaudeField").as_deref(),
        Some("value"),
        "unknown future fields should appear in extra"
    );
}

#[test]
fn model_is_trimmed_and_blank_is_absent() {
    let cfg = parse_settings(r#"{"model": "  opus \n", "effortLevel": "   "}"#);
    assert_eq!(cfg.model.as_deref(), Some("opus"));
    assert!(cfg.thinking_effort.is_none());
    let cfg = parse_settings(r#"{"model": 4}"#);
    assert!(cfg.model.is_none());
    assert_eq!(cfg.extra_value("model"), None);
}

#[test]
fn json_string_ignores_non_objects() {
    assert_eq!(json_string(&JsonValue::Str("model".to_string()), "model"), None);
    assert_eq!(
        json_string(&parse(r#"{"k": "\u00a0v\u3000"}"#).unwrap(), "k").as_deref(),
        Some("v")
    );
}

#[test]
fn leaf_values_render_as_text() {
    let cfg = parse_settings(r#"{"n": 1.5, "z": null, "a": [1, 2], "f": false, "o": {"deep": {"x": 1}}}"#);
    assert_eq!(cfg.extra_value("n").as_deref(), Some("1.5"));
    assert_eq!(cfg.extra_value("z").as_deref(), Some("null"));
    assert_eq!(cfg.extra_value("a").as_deref(), Some("[...]"));
    assert_eq!(cfg.extra_value("f").as_deref(), Some("false"));
    assert_eq!(cfg.extra_value("o.deep").as_deref(), Some("{...}"));
}

#[test]
fn nested_objects_merge_deeply_and_scalars_replace() {
    let merged = merge_settings(
        parse(r#"{"a": {"b": {"c": 1, "d": 2}}, "s": {"x": 1}}"#),
        parse(r#"{"a": {"b": {"d": 3}}, "s": 5}"#),
    )
    .unwrap();
    let a = get(&merged, "a").unwrap();
    let b = get(a, "b").unwrap();
    assert_eq!(get(b, "c"), Some(&JsonValue::Number("1".to_string())));
    assert_eq!(get(b, "d"), Some(&JsonValue::Number("3".to_string())));
    assert_eq!(get(&merged, "s"), Some(&JsonValue::Number("5".to_string())));
}

#[test]
fn no_documents_give_no_config() {
    assert!(config_from_documents(None, None, None).is_none());
    let cfg = config_from_documents(parse(r#"{"model": "m"}"#), None, None).unwrap();
    assert_eq!(cfg.model.as_deref(), Some("m"));
    assert!(cfg.extensions.is_empty());
    let cfg = config_from_documents(None, None, parse(r#"{"other": 1}"#)).unwrap();
    assert!(cfg.model.is_none());
    assert!(cfg.extra.is_empty());
    assert!(cfg.extensions.is_empty());
}

#[test]
fn parse_json_reads_documents() {
    assert_eq!(parse_json("not json"), None);
    assert_eq!(parse_json("[true, null]"), Some(JsonValue::Array(vec![JsonValue::Bool(true), JsonValue::Null])));
    assert_eq!(
        parse_json(r#"{"b": "x", "a": 2}"#),
        Some(JsonValue::Object(vec![
            ("a".to_string(), JsonValue::Number("2".to_string())),
            ("b".to_string(), JsonValue::Str("x".to_string())),
        ]))
    );
}

#[test]
fn config_from_texts_layers_parsed_files() {
    let cfg = config_from_texts(
        Some(r#"{"model": "opus-4", "effortLevel": "low"}"#),
        Some(r#"{"effortLevel": "high"}"#),
        Some(r#"{"mcpServers": {"github": {}}}"#),
    )
    .unwrap();
    assert_eq!(cfg.model.as_deref(), Some("opus-4"));
    assert_eq!(cfg.thinking_effort.as_deref(), Some("high"));
    assert_eq!(cfg.extensions.len(), 1);
    assert_eq!(cfg.extensions[0].name, "github");
}

#[test]
fn unreadable_or_malformed_files_count_as_absent() {
    assert!(config_from_texts(None, Some("{oops"), None).is_none());
    let cfg = config_from_texts(Some("{oops"), Some(r#"{"model": "p"}"#), None).unwrap();
    assert_eq!(cfg.model.as_deref(), Some("p"));
}

#[test]
fn project_file_read_only_when_distinct_from_user_file() {
    assert!(!reads_project_file("/home/u/.agent/settings.json", "/home/u/.agent/settings.json"));
    assert!(!reads_project_file("/home/u/.agent/settings.json", "/home//u/./.agent/settings.json"));
    assert!(reads_project_file("/home/u/.agent/settings.json", "/work/.agent/settings.json"));
}

#[test]
fn merged_keys_keep_key_order() {
    let doc = merge_settings(parse(r#"{"b": 1, "d": 2}"#), parse(r#"{"c": 3, "a": 4}"#)).unwrap();
    match doc {
        JsonValue::Object(entries) => {
            let keys: Vec<&str> = entries.iter().map(|(k, _)| k.as_str()).collect();
            assert_eq!(keys, vec!["a", "b", "c", "d"]);
        }
        _ => panic!("object expected"),
    }
    let cfg = merged(r#"{"env": {"Z": "z"}, "b": "1"}"#, r#"{"env": {"A": "a"}, "a": "2"}"#);
    let names: Vec<&str> = cfg.extra.iter().map(|(k, _)| k.as_str()).collect();
    assert_eq!(names, vec!["a", "b", "env.A", "env.Z"]);
}
