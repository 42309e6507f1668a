use codex_continuity::config::ConfigSummary;
use codex_continuity::render::{
    compact_time_of, list_item_text, one_line_of, render_detail, render_doctor, render_native,
    render_preview, render_restore, restore_file_name,
};
use codex_continuity::session::{Message, Session};
use codex_continuity::ui::{
    lowercase, command_for, filter_sessions, matches_needle, next_progress_step, progress_bar_text,
    progress_start_text, select_session, UiCommand, ID_COPY, ID_LIST, ID_REFRESH, ID_SEARCH,
};

fn msg(ts: &str, role: &str, text: &str) -> Message {
    Message { timestamp: ts.to_string(), role: role.to_string(), text: text.to_string() }
}

fn sample() -> Session {
    let mut s = Session::new("C:\\x\\rollout.jsonl".to_string());
    s.id = "sess-1".to_string();
    s.first_timestamp = "2025-01-01T10:00:00Z".to_string();
    s.last_timestamp = "2025-01-01T11:00:00Z".to_string();
    s.provider = "openai".to_string();
    s.messages = vec![msg("2025-01-01T10:00:02Z", "user", "hi"), msg("", "assistant", "yo")];
    s.errors = vec!["boom".to_string()];
    s.event_types = vec!["turn_aborted".to_string()];
    s
}

fn config(provider: &str) -> ConfigSummary {
    let mut c = ConfigSummary::empty("C:\\h\\.codex\\config.toml".to_string());
    c.model_provider = Some(provider.to_string());
    c.providers = vec!["openai".to_string(), "custom".to_string()];
    c
}

#[test]
fn compact_time_cases() {
    assert_eq!(compact_time_of("2025-01-01T10:00:00.123Z"), "2025-01-01 10:00:00");
    assert_eq!(compact_time_of(""), "-");
    assert_eq!(compact_time_of("T1"), " 1");
}

#[test]
fn one_line_cases() {
    assert_eq!(one_line_of("  a   b\n c ", 10), "a b c");
    assert_eq!(one_line_of("hello world", 5), "hell…");
    assert_eq!(one_line_of("ab cd", 3), "ab…");
    assert_eq!(one_line_of("a bcd", 3), "a…");
    assert_eq!(one_line_of("abc", 0), "…");
    assert_eq!(one_line_of("ééé", 4), "ééé…");
    assert_eq!(one_line_of("ééé", 6), "ééé");
}

#[test]
fn render_detail_text() {
    let expected = "id:        sess-1\r\nname:      unnamed\r\npath:      C:\\x\\rollout.jsonl\r\ntime:      2025-01-01T10:00:00Z -> 2025-01-01T11:00:00Z\r\ncwd:       unknown\r\nprovider:  openai\r\nmodel:     unknown\r\nsource:    unknown\r\nturns:     user=1 assistant=1\r\nevents:    aborted=1 rolled_back=0\r\nerrors:\r\n  - boom\r\nrecent user prompts:\r\n  - 2025-01-01 10:00:02 hi\r\n";
    assert_eq!(render_detail(&sample()), expected);
}

#[test]
fn render_detail_limits_lists() {
    let mut s = Session::new("p".to_string());
    s.id = "i".to_string();
    s.errors = (0..7).map(|k| format!("e{k}")).collect();
    s.messages = (0..22).map(|k| msg("", "user", &format!("m{k}"))).collect();
    let d = render_detail(&s);
    assert!(d.contains("  - e4\r\n"));
    assert!(!d.contains("  - e5\r\n"));
    assert!(!d.contains("  - - m1\r\n"));
    assert!(d.contains("  - - m2\r\n"));
    assert!(d.ends_with("  - - m21\r\n"));
}

#[test]
fn render_restore_text() {
    let expected = "# Codex Local Session Restore\n\nPlease restore this local Codex session and continue work.\n\n## Session\n\n- Session id: `sess-1`\n- Thread name: `sess-1`\n- Original cwd: `unknown`\n- Original provider: `openai`\n- Time range: `2025-01-01T10:00:00Z` -> `2025-01-01T11:00:00Z`\n- Local JSONL: `C:\\x\\rollout.jsonl`\n\n## Restore Requirements\n\n1. Read `Local JSONL` first; do not rely on server-side `/resume`.\n2. Summarize latest target, constraints, files, verification status, and remaining work.\n3. Treat the last real user request as current.\n\n## Last User Request\n\nhi\n";
    assert_eq!(render_restore(&sample()), expected);
    let mut s = sample();
    s.messages.clear();
    assert!(!render_restore(&s).contains("Last User Request"));
}

#[test]
fn render_native_possible() {
    let mut s = sample();
    s.cwd = "C:\\w".to_string();
    let expected = "session:          sess-1 (unnamed)\r\nsession provider: openai\r\ncurrent provider: custom\r\nconfig:           C:\\h\\.codex\\config.toml\r\nnative status:    possible\r\nnote:             provider must support response-chain resume\r\ncommand:\r\n  codex resume sess-1 -c model_provider=\"openai\" -c disable_response_storage=false -C \"C:\\w\"\r\n";
    assert_eq!(render_native(&s, &config("custom")), expected);
}

#[test]
fn render_native_blocked() {
    let mut s = sample();
    s.provider = String::new();
    let expected = "session:          sess-1 (unnamed)\r\nsession provider: unknown\r\ncurrent provider: custom\r\nconfig:           C:\\h\\.codex\\config.toml\r\nnative status:    blocked\r\nreason:           session JSONL does not record original provider\r\n";
    assert_eq!(render_native(&s, &config("custom")), expected);
    let mut t = sample();
    t.provider = "gone".to_string();
    let expected2 = "session:          sess-1 (unnamed)\r\nsession provider: gone\r\ncurrent provider: custom\r\nconfig:           C:\\h\\.codex\\config.toml\r\nnative status:    blocked\r\nreason:           provider 'gone' is not defined in current config\r\ncommand:\r\n  codex resume sess-1 -c model_provider=\"gone\" -c disable_response_storage=false\r\n";
    assert_eq!(render_native(&t, &config("custom")), expected2);
}

#[test]
fn render_doctor_high_risk() {
    let mut c = config("custom");
    c.disable_response_storage = Some("true".to_string());
    c.base_url = Some("https://e".to_string());
    c.wire_api = Some("responses".to_string());
    let expected = "session:          sess-1 (unnamed)\r\nsession provider: openai\r\ncurrent provider: custom\r\ncurrent base_url: https://e\r\nwire_api:         responses\r\nstorage disabled: true\r\nprovider exists:  true\r\nassistant turns:  1\r\naborted turns:    1\r\nrollback events:  0\r\nresume risk:      high\r\nwhy:\r\n  - provider changed: session used 'openai', current config uses 'custom'\r\n  - disable_response_storage is true, so server-side response-chain resume may be unavailable\r\n  - current provider uses the Responses API; provider compatibility must include response storage/readback\r\n  - session records 1 aborted turn(s)\r\n";
    assert_eq!(render_doctor(&sample(), &c), expected);
}

#[test]
fn render_doctor_error_risks() {
    let mut s = sample();
    s.provider = "custom".to_string();
    s.event_types.clear();
    s.errors = vec!["plain".to_string(), "stream disconnected before completion".to_string(), "Bad Gateway".to_string()];
    let d = render_doctor(&s, &config("custom"));
    assert!(d.contains("  - session recorded a stream that closed before response.completed\r\n"));
    assert!(!d.contains("Bad Gateway"));
    s.errors = vec!["POST /v1/responses failed".to_string()];
    let d2 = render_doctor(&s, &config("custom"));
    assert!(d2.ends_with("  - session already recorded API error: POST /v1/responses failed\r\n"));
}

#[test]
fn render_doctor_no_risk() {
    let mut s = sample();
    s.provider = "custom".to_string();
    s.event_types.clear();
    let mut c = config("custom");
    c.wire_api = Some("chat".to_string());
    let expected = "session:          sess-1 (unnamed)\r\nsession provider: custom\r\ncurrent provider: custom\r\ncurrent base_url: unknown\r\nwire_api:         chat\r\nstorage disabled: unknown\r\nprovider exists:  true\r\nassistant turns:  1\r\naborted turns:    0\r\nrollback events:  0\r\nresume risk:      no obvious local risk found\r\n";
    assert_eq!(render_doctor(&s, &c), expected);
}

#[test]
fn render_preview_and_list_item() {
    let s = sample();
    assert_eq!(
        render_preview(&s),
        "Selected session\r\n\r\nid:       sess-1\r\nupdated:  2025-01-01 11:00:00\r\nprovider: openai\r\nturns:    1\r\ncontext:  unnamed | unknown cwd\r\n\r\nClick Show Detail, Diagnose /resume Risk, Native Resume Command, or Provider Sync actions."
    );
    assert_eq!(list_item_text(&s), "2025-01-01 11:00:00  openai  turns 1 | unnamed | sess-1");
}

#[test]
fn restore_file_name_cases() {
    assert_eq!(restore_file_name("0123456789abc"), "codex-restore-01234567.md");
    assert_eq!(restore_file_name("abc"), "codex-restore-abc.md");
}

#[test]
fn command_decoding() {
    assert_eq!(command_for(ID_REFRESH as usize), Some(UiCommand::Refresh));
    assert_eq!(command_for(1004), Some(UiCommand::ToggleArchived));
    assert_eq!(command_for(ID_LIST as usize | (1 << 16)), Some(UiCommand::SelectionChanged));
    assert_eq!(command_for(ID_LIST as usize), None);
    assert_eq!(command_for(ID_SEARCH as usize | (0x300 << 16)), Some(UiCommand::SearchChanged));
    assert_eq!(command_for(ID_COPY as usize | (7 << 16)), Some(UiCommand::CopyRestore));
    assert_eq!(command_for(9999), None);
    assert_eq!(command_for((1 << 32) | 1008), Some(UiCommand::Diagnose));
}

#[test]
fn progress_texts() {
    assert_eq!(progress_start_text("Refreshing sessions"), "Refreshing sessions  0%");
    assert_eq!(next_progress_step(0), 7);
    assert_eq!(next_progress_step(88), 95);
    assert_eq!(next_progress_step(95), 95);
    assert_eq!(progress_bar_text(35), "Working [███░░░░░░░] 35%");
    assert_eq!(progress_bar_text(0), "Working [░░░░░░░░░░] 0%");
    assert_eq!(progress_bar_text(100), "Working [██████████] 100%");
}

#[test]
fn filter_sessions_by_needle() {
    let mut a = Session::new("p".to_string());
    a.id = "abc".to_string();
    a.provider = "OpenAI".to_string();
    let mut b = Session::new("q".to_string());
    b.id = "def".to_string();
    b.cwd = "C:\\Proj".to_string();
    let v = vec![a, b];
    assert_eq!(filter_sessions(&v, "openai"), vec![0]);
    assert_eq!(filter_sessions(&v, ""), vec![0, 1]);
    assert_eq!(filter_sessions(&v, "PROJ"), vec![1]);
    assert_eq!(filter_sessions(&v, "zzz"), Vec::<usize>::new());
    assert!(matches_needle("abc", ""));
    assert!(!matches_needle("abc", "abd"));
}

#[test]
fn select_session_cases() {
    let shown = vec![2, 0];
    assert_eq!(select_session(&shown, 1, 3), Some(0));
    assert_eq!(select_session(&shown, 0, 3), Some(2));
    assert_eq!(select_session(&shown, -1, 3), None);
    assert_eq!(select_session(&shown, 2, 3), None);
    assert_eq!(select_session(&vec![5], 0, 3), None);
}

#[test]
fn narrower_search_shows_subset() {
    let mut v = Vec::new();
    for (id, provider) in [("a1", "OpenAI"), ("b2", "openrouter"), ("c3", "Azure")] {
        let mut s = Session::new("p".to_string());
        s.id = id.to_string();
        s.provider = provider.to_string();
        v.push(s);
    }
    let wide = filter_sessions(&v, "OPEN");
    let narrow = filter_sessions(&v, "openAI");
    assert_eq!(wide, vec![0, 1]);
    assert_eq!(narrow, vec![0]);
    assert!(narrow.iter().all(|i| wide.contains(i)));
    assert_eq!(filter_sessions(&v, ""), vec![0, 1, 2]);
}

#[test]
fn lowercase_of_search_texts() {
    assert_eq!(lowercase("ÀB c"), "àb c");
    assert_eq!(lowercase(""), "");
}
