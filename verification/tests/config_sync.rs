use codex_continuity::config::{
    agent_provider_from_text, parse_config, quote_toml_of, replace_model_provider_line,
    toml_value_of, ConfigSummary,
};
use codex_continuity::json::json_payload_string;
use codex_continuity::sync::{
    agent_sync_step, session_sync_step, SyncAction, agent_needs_sync, backup_folder, render_sync_report, sync_provider, sync_session_text,
    sync_session_text_defined,
};

const CONFIG: &str = "# comment\n\
model_provider = \"custom\"\n\
disable_response_storage = true\n\
\n\
[model_providers.openai]\n\
base_url = \"https://api.openai.com/v1\"\n\
wire_api = \"chat\"\n\
\n\
  [model_providers.\"custom\"]  \r\n\
base_url = \"https://example.com/v1\"\n\
wire_api = \"responses\"\n\
[model_providers.openai]\n";

fn config(provider: Option<&str>, providers: &[&str]) -> ConfigSummary {
    let mut c = ConfigSummary::empty("C:\\h\\.codex\\config.toml".to_string());
    c.model_provider = provider.map(|p| p.to_string());
    c.providers = providers.iter().map(|p| p.to_string()).collect();
    c
}

#[test]
fn parse_config_reads_summary() {
    let c = parse_config("cfg.toml".to_string(), CONFIG);
    assert_eq!(c.model_provider, Some("custom".to_string()));
    assert_eq!(c.disable_response_storage, Some("true".to_string()));
    assert_eq!(c.base_url, Some("https://example.com/v1".to_string()));
    assert_eq!(c.wire_api, Some("responses".to_string()));
    assert_eq!(c.providers, vec!["openai".to_string(), "custom".to_string()]);
    assert_eq!(c.path, "cfg.toml");
}

#[test]
fn parse_config_of_empty_text() {
    let c = parse_config("p".to_string(), "");
    assert_eq!(c.model_provider, None);
    assert_eq!(c.disable_response_storage, None);
    assert_eq!(c.base_url, None);
    assert_eq!(c.wire_api, None);
    assert!(c.providers.is_empty());
}

#[test]
fn parse_config_ignores_other_tables() {
    let text = "model_provider = \"a\"\n[model_providers.b]\nbase_url = \"x\"\n[model_providers.a]\nwire_api = \"chat\"\n";
    let c = parse_config("p".to_string(), text);
    assert_eq!(c.base_url, None);
    assert_eq!(c.wire_api, Some("chat".to_string()));
    assert_eq!(c.providers, vec!["b".to_string(), "a".to_string()]);
}

#[test]
fn toml_value_cases() {
    assert_eq!(toml_value_of("key = \"v\""), "v");
    assert_eq!(toml_value_of("key=  plain "), "plain");
    assert_eq!(toml_value_of("novalue"), "");
    assert_eq!(toml_value_of("k = \"\""), "");
    assert_eq!(toml_value_of("k = \""), "\"");
    assert_eq!(toml_value_of("k = a = b"), "a = b");
}

#[test]
fn quote_toml_escapes() {
    assert_eq!(quote_toml_of("a\"b\\c"), "\"a\\\"b\\\\c\"");
    assert_eq!(quote_toml_of(""), "\"\"");
}

const AGENT: &str = "name = \"x\"\n  model_provider = \"openai\"\nmodel_provider = \"other\"\n";

#[test]
fn agent_provider_reads_first_line() {
    assert_eq!(agent_provider_from_text(AGENT), Some("openai".to_string()));
    assert_eq!(agent_provider_from_text("name = \"x\"\n"), None);
    assert_eq!(agent_provider_from_text(""), None);
}

#[test]
fn replace_model_provider_line_rewrites_first() {
    assert_eq!(
        replace_model_provider_line(AGENT, "custom"),
        "name = \"x\"\n  model_provider = \"custom\"\nmodel_provider = \"other\"\n"
    );
    assert_eq!(
        replace_model_provider_line("a\r\nmodel_provider=1", "p"),
        "a\nmodel_provider = \"p\""
    );
    assert_eq!(replace_model_provider_line("a\nb\n", "p"), "a\nb\n");
    assert_eq!(replace_model_provider_line("", "p"), "");
}

#[test]
fn agent_provider_write_then_read() {
    for p in ["custom", "with space", "q\"uote", "back\\slash"] {
        let w = replace_model_provider_line(AGENT, p);
        let expected = p.replace('\\', "\\\\").replace('"', "\\\"");
        assert_eq!(agent_provider_from_text(&w), Some(expected));
    }
}

#[test]
fn sync_provider_checks_current() {
    assert_eq!(sync_provider(&config(Some("custom"), &["openai", "custom"])), Ok("custom".to_string()));
    let missing = Err("current model_provider is missing or not defined".to_string());
    assert_eq!(sync_provider(&config(None, &["openai"])), missing);
    assert_eq!(sync_provider(&config(Some(""), &[""])), missing);
    assert_eq!(sync_provider(&config(Some("x"), &["openai"])), missing);
}

#[test]
fn agent_needs_sync_cases() {
    assert!(agent_needs_sync("openai", "custom"));
    assert!(!agent_needs_sync("custom", "custom"));
    assert!(!agent_needs_sync("", "custom"));
}

#[test]
fn sync_session_text_rewrites_meta() {
    let text = "{\"type\":\"session_meta\",\"payload\":{\"id\":\"s\",\"model_provider\":\"openai\"}}\r\n{\"type\":\"event_msg\",\"payload\":{\"type\":\"x\"}}";
    assert!(sync_session_text_defined(text, "custom"));
    let r = sync_session_text(text, "custom");
    assert!(r.changed);
    assert_eq!(r.old_provider, "openai");
    assert_eq!(
        r.new_text,
        "{\"type\":\"session_meta\",\"payload\":{\"id\":\"s\",\"model_provider\":\"custom\"}}\n{\"type\":\"event_msg\",\"payload\":{\"type\":\"x\"}}\n"
    );
    let first = r.new_text.lines().next().unwrap();
    assert_eq!(json_payload_string(first, "model_provider"), Some("custom".to_string()));
}

#[test]
fn sync_session_text_already_current() {
    let text = "{\"type\":\"session_meta\",\"payload\":{\"model_provider\":\"custom\"}}\n";
    let r = sync_session_text(text, "custom");
    assert!(!r.changed);
    assert_eq!(r.old_provider, "custom");
    assert_eq!(r.new_text, text);
    let none = sync_session_text("", "custom");
    assert!(!none.changed);
    assert_eq!(none.old_provider, "");
    assert_eq!(none.new_text, "\n");
}

#[test]
fn sync_report_dry_run() {
    let providers = vec!["openai".to_string(), "custom".to_string()];
    let agents = vec![("a.toml".to_string(), "openai".to_string())];
    let sessions = vec![("rollout-1.jsonl".to_string(), "openai".to_string())];
    assert_eq!(
        render_sync_report("custom", &providers, true, &agents, &sessions, "C:\\b"),
        "current provider: custom\r\ndefined providers: openai, custom\r\ndry run:          true\r\n  agent a.toml: openai -> custom\r\nagent refs:       1 change(s)\r\n  session rollout-1.jsonl: openai -> custom\r\nsession refs:     1 change(s)\r\n"
    );
    assert_eq!(
        render_sync_report("custom", &providers, false, &agents, &Vec::new(), "C:\\b"),
        "current provider: custom\r\ndefined providers: openai, custom\r\ndry run:          false\r\n  agent a.toml: openai -> custom\r\nagent refs:       1 change(s)\r\nsession refs:     0 change(s)\r\nbackup:           C:\\b\r\n"
    );
}

#[test]
fn sync_report_already_synced() {
    let providers = vec!["custom".to_string()];
    assert_eq!(
        render_sync_report("custom", &providers, false, &Vec::new(), &Vec::new(), "C:\\b"),
        "current provider: custom\r\ndefined providers: custom\r\ndry run:          false\r\nagent refs:       0 change(s)\r\nsession refs:     0 change(s)\r\nstatus:           already synced\r\n"
    );
}

#[test]
fn backup_folder_name_is_zero_padded() {
    assert_eq!(backup_folder(2025, 1, 2, 3, 4, 5), "provider-sync-backup-20250102-030405");
    assert_eq!(backup_folder(12345, 12, 31, 23, 59, 59), "provider-sync-backup-123451231-235959");
    assert_eq!(backup_folder(7, 0, 0, 0, 0, 0), "provider-sync-backup-00070000-000000");
}

#[test]
fn session_sync_settles() {
    let text = "{\"timestamp\":\"t\",\"type\":\"session_meta\",\"payload\":{\"id\":\"s\",\"model_provider\": \"openai\",\"cwd\":\"C:\\\\é\"}}\n{\"type\":\"event_msg\",\"payload\":{\"type\":\"x\"}}\n";
    let first = sync_session_text(text, "custom");
    assert!(first.changed);
    let second = sync_session_text(&first.new_text, "custom");
    assert!(!second.changed);
    assert_eq!(second.old_provider, "custom");
    assert_eq!(second.new_text, first.new_text);
}

#[test]
fn agent_sync_settles() {
    let w = replace_model_provider_line(AGENT, "custom");
    let p = agent_provider_from_text(&w).unwrap();
    assert!(!agent_needs_sync(&p, "custom"));
}

#[test]
fn session_sync_step_actions() {
    let text = "{\"type\":\"session_meta\",\"payload\":{\"model_provider\":\"openai\"}}\n";
    let mut changes = Vec::new();
    let acts = session_sync_step("rollout-1.jsonl", text, "custom", true, &mut changes);
    assert!(acts.is_empty());
    assert_eq!(changes, vec![("rollout-1.jsonl".to_string(), "openai".to_string())]);
    let acts = session_sync_step("rollout-1.jsonl", text, "custom", false, &mut changes);
    assert_eq!(changes.len(), 2);
    assert_eq!(acts.len(), 2);
    assert!(matches!(&acts[0], SyncAction::Backup(n) if n == "rollout-1.jsonl"));
    match &acts[1] {
        SyncAction::Write(n, t) => {
            assert_eq!(n, "rollout-1.jsonl");
            assert_eq!(t, "{\"type\":\"session_meta\",\"payload\":{\"model_provider\":\"custom\"}}\n");
        }
        _ => panic!("expected a write"),
    }
    let same = "{\"type\":\"session_meta\",\"payload\":{\"model_provider\":\"custom\"}}\n";
    assert!(session_sync_step("r2.jsonl", same, "custom", false, &mut changes).is_empty());
    assert_eq!(changes.len(), 2);
}

#[test]
fn agent_sync_step_actions() {
    let mut changes = Vec::new();
    assert!(agent_sync_step("a.toml", AGENT, "custom", true, &mut changes).is_empty());
    assert_eq!(changes, vec![("a.toml".to_string(), "openai".to_string())]);
    let acts = agent_sync_step("a.toml", AGENT, "custom", false, &mut changes);
    assert_eq!(acts.len(), 2);
    assert!(matches!(&acts[0], SyncAction::Backup(n) if n == "a.toml"));
    match &acts[1] {
        SyncAction::Write(n, t) => {
            assert_eq!(n, "a.toml");
            assert_eq!(t, "name = \"x\"\n  model_provider = \"custom\"\nmodel_provider = \"other\"\n");
        }
        _ => panic!("expected a write"),
    }
    let mut none = Vec::new();
    assert!(agent_sync_step("b.toml", "name = 1\n", "custom", false, &mut none).is_empty());
    assert!(agent_sync_step("c.toml", "model_provider = \"custom\"\n", "custom", false, &mut none).is_empty());
    assert!(none.is_empty());
}

#[test]
fn session_sync_settles_with_carriage_returns() {
    let text = "{\"type\":\"session_meta\",\"payload\":{\"model_provider\":\"openai\"},\"x\":1}\r";
    let first = sync_session_text(text, "custom");
    assert!(first.changed);
    let second = sync_session_text(&first.new_text, "custom");
    assert!(!second.changed);
    // A kept line that becomes a session_meta line once its carriage return is
    // dropped does not settle.
    let odd = "{\"payload\":{\"model_provider\":\"old\"},\"type\":\"session_meta\r";
    let a = sync_session_text(odd, "custom");
    assert!(!a.changed);
    let b = sync_session_text(&a.new_text, "custom");
    assert!(b.changed);
}
