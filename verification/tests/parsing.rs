use codex_continuity::catalog::{
    is_archive_path, is_restore_backup_dir_name, is_rollout_file_name, list_sessions,
    select_sessions, sort_sessions, thread_index_defined, thread_name_for, thread_names,
};
use codex_continuity::json::{
    json_content_text, json_get_string, json_payload_string, json_quote_string,
    parse_json_string, parse_json_value_as_string, replace_json_payload_string,
};
use codex_continuity::redact::{noise, redact_word, sanitize};
use codex_continuity::session::{parse_session, parse_session_defined, session_id, Message, Session};

fn lines(v: &[&str]) -> Vec<String> {
    v.iter().map(|s| s.to_string()).collect()
}

fn session(id: &str, path: &str, first: &str) -> Session {
    let mut s = Session::new(path.to_string());
    s.id = id.to_string();
    s.first_timestamp = first.to_string();
    s
}

// ----- json -----

#[test]
fn json_get_string_reads_string_values() {
    let src = r#"{"id":"abc","thread_name":"My thread"}"#;
    assert_eq!(json_get_string(src, "id"), Some("abc".to_string()));
    assert_eq!(json_get_string(src, "thread_name"), Some("My thread".to_string()));
    assert_eq!(json_get_string(src, "missing"), None);
}

#[test]
fn json_get_string_reads_raw_values() {
    let src = r#"{"n": 42, "x": null, "e": }"#;
    assert_eq!(json_get_string(src, "n"), Some("42".to_string()));
    assert_eq!(json_get_string(src, "x"), None);
    assert_eq!(json_get_string(src, "e"), None);
}

#[test]
fn json_get_string_skips_marker_without_colon() {
    let src = r#"{"a":"id","id":"x"}"#;
    assert_eq!(json_get_string(src, "id"), Some("x".to_string()));
}

#[test]
fn parse_json_string_decodes_escapes() {
    assert_eq!(parse_json_string(r#"a\"b\\c\/d\n\te" trailing"#), "a\"b\\c/d\n\te");
    assert_eq!(parse_json_string(r#"\b\f\r\q"#), "\u{8}\u{c}\rq");
    assert_eq!(parse_json_string(r#"abc\"#), "abc");
    assert_eq!(parse_json_string(""), "");
}

#[test]
fn parse_json_string_decodes_unicode_escapes() {
    assert_eq!(parse_json_string(r#"\u0041BC""#), "ABC");
    assert_eq!(parse_json_string(r#"\u00e9!"#), "é!");
    // A lone surrogate is no character: it is dropped.
    assert_eq!(parse_json_string(r#"\ud800x"#), "x");
    // Not hexadecimal: the four characters are skipped.
    assert_eq!(parse_json_string(r#"\uZZZZab"#), "ab");
    // Fewer than four characters left: nothing is skipped.
    assert_eq!(parse_json_string(r#"\u12"#), "12");
}

#[test]
fn parse_json_value_as_string_cases() {
    assert_eq!(parse_json_value_as_string(r#""hi" ,"#), Some("hi".to_string()));
    assert_eq!(parse_json_value_as_string("  true }"), Some("true".to_string()));
    assert_eq!(parse_json_value_as_string("null]"), None);
    assert_eq!(parse_json_value_as_string(""), None);
}

#[test]
fn json_payload_string_reads_inside_payload() {
    let meta = r#"{"id":"outer","type":"session_meta","payload":{"id":"p1","model_provider":"openai"}}"#;
    assert_eq!(json_payload_string(meta, "id"), Some("p1".to_string()));
    assert_eq!(json_payload_string(meta, "model_provider"), Some("openai".to_string()));
    let ev = r#"{"type":"event_msg","payload":{"type":"user_message","message":"hello"}}"#;
    assert_eq!(json_payload_string(ev, "type"), Some("user_message".to_string()));
    assert_eq!(json_payload_string(r#"{"id":"x"}"#, "id"), None);
}

#[test]
fn json_content_text_joins_present_values() {
    assert_eq!(json_content_text(r#"{"text":"a","output":"b"}"#), "a\nb");
    assert_eq!(json_content_text(r#"{"role":"user"}"#), "");
    let item = r#"{"payload":{"content":[{"type":"input_text","text":"hello"}]}}"#;
    assert_eq!(json_content_text(item), "hello\n[{\"type\":\"input_text\"");
}

#[test]
fn json_quote_string_escapes() {
    assert_eq!(json_quote_string("a\"b\\c\n\t\r"), r#""a\"b\\c\n\t\r""#);
    assert_eq!(json_quote_string(""), "\"\"");
}

#[test]
fn json_quote_roundtrip_on_values() {
    for v in ["plain", "with \"quotes\"", "back\\slash", "multi\nline\ttab\r", "é ünïcode"] {
        let q = json_quote_string(v);
        assert_eq!(parse_json_string(&q[1..]), v);
    }
}

#[test]
fn replace_json_payload_string_after_wide_characters() {
    let line = r#"{"type":"session_meta","payload":{"cwd":"C:\\é","model_provider":"ö\"ld","x":1}}"#;
    assert_eq!(
        replace_json_payload_string(line, "model_provider", "nëw"),
        r#"{"type":"session_meta","payload":{"cwd":"C:\\é","model_provider":"nëw","x":1}}"#
    );
    let raw = r#"{"payload":{"k":"é","model_provider":12,"z":2}}"#;
    assert_eq!(
        replace_json_payload_string(raw, "model_provider", "p"),
        r#"{"payload":{"k":"é","model_provider":"p","z":2}}"#
    );
}

#[test]
fn replace_json_payload_string_rewrites_value() {
    let line = r#"{"type":"session_meta","payload":{"id":"x","model_provider":"old","cwd":"c"}}"#;
    assert_eq!(
        replace_json_payload_string(line, "model_provider", "new"),
        r#"{"type":"session_meta","payload":{"id":"x","model_provider":"new","cwd":"c"}}"#
    );
    let spaced = r#"{"payload":{"model_provider": "old"}}"#;
    assert_eq!(
        replace_json_payload_string(spaced, "model_provider", "new"),
        r#"{"payload":{"model_provider": "new"}}"#
    );
    let raw = r#"{"payload":{"model_provider":null}}"#;
    assert_eq!(
        replace_json_payload_string(raw, "model_provider", "new"),
        r#"{"payload":{"model_provider":"new"}}"#
    );
}

#[test]
fn replace_json_payload_string_leaves_line_unchanged() {
    let no_payload = r#"{"model_provider":"old"}"#;
    assert_eq!(replace_json_payload_string(no_payload, "model_provider", "new"), no_payload);
    let no_key = r#"{"payload":{"id":"x"}}"#;
    assert_eq!(replace_json_payload_string(no_key, "model_provider", "new"), no_key);
    let unterminated = r#"{"payload":{"model_provider":"old"#;
    assert_eq!(replace_json_payload_string(unterminated, "model_provider", "new"), unterminated);
}

#[test]
fn payload_write_then_read() {
    let line = r#"{"type":"session_meta","payload":{"id":"x","model_provider":"old"}}"#;
    for v in ["custom", "a\"b", "back\\slash", "two\nlines"] {
        let w = replace_json_payload_string(line, "model_provider", v);
        assert_eq!(json_payload_string(&w, "model_provider"), Some(v.to_string()));
    }
}

// ----- redaction -----

#[test]
fn sanitize_collapses_whitespace_and_nul() {
    assert_eq!(sanitize("  hello   world \0 "), "hello world");
    assert_eq!(sanitize("a\0b"), "ab");
    assert_eq!(sanitize("   "), "");
}

#[test]
fn redact_word_hides_keys() {
    assert_eq!(redact_word("sk-abcdefghijklmnop"), "<redacted>");
    assert_eq!(redact_word("SK-ABCDEFGHIJKLMNOP"), "<redacted>");
    assert_eq!(redact_word("sk-short"), "sk-short");
}

#[test]
fn redact_word_hides_assignments() {
    assert_eq!(redact_word("api_key=12345"), "api_key=<redacted>");
    assert_eq!(redact_word("Token:abc"), "Token=<redacted>");
    assert_eq!(redact_word("bearer:xyz=1"), "bearer=<redacted>");
    assert_eq!(redact_word("password"), "password");
    assert_eq!(redact_word("secretive"), "secretive");
    assert_eq!(redact_word("hello=world"), "hello=world");
}

#[test]
fn sanitize_redacts_words() {
    assert_eq!(
        sanitize("my api_key=abc and sk-1234567890abcdef done"),
        "my api_key=<redacted> and <redacted> done"
    );
}

#[test]
fn sanitize_is_idempotent_on_values() {
    for t in [
        "  token=abc  sk-1234567890abcdef\tplain\0 ",
        "Password:xyz",
        "nothing secret here",
        "",
    ] {
        let once = sanitize(t);
        assert_eq!(sanitize(&once), once);
    }
}

#[test]
fn noise_detects_injected_context() {
    assert!(noise("  <environment_context> foo"));
    assert!(noise("# AGENTS.md instructions for x"));
    assert!(!noise("hello"));
    assert!(!noise("see <environment_context>"));
}

// ----- sessions -----

#[test]
fn session_id_from_file_name() {
    assert_eq!(session_id("rollout-2025-01-01T10-00-00-abc-def.jsonl"), "01T10-00-00-abc-def");
    assert_eq!(session_id("rollout-a-b-c.jsonl"), "c");
    assert_eq!(session_id("rollout-x.jsonl"), "rollout-x");
    assert_eq!(session_id("notes.txt"), "notes");
    assert_eq!(session_id("archive.tar.gz"), "archive.tar");
    assert_eq!(session_id(".bashrc"), ".bashrc");
    assert_eq!(session_id(""), "");
}

fn sample_log() -> Vec<String> {
    lines(&[
        r#"{"timestamp":"2025-01-01T10:00:00Z","type":"session_meta","payload":{"id":"sess-1","cwd":"C:\\work","model_provider":"openai","model":"gpt-5","originator":"codex_cli"}}"#,
        r#"{"timestamp":"2025-01-01T10:00:01Z","type":"turn_context","payload":{"cwd":"C:\\proj","model":"gpt-5.1"}}"#,
        r#"{"timestamp":"2025-01-01T10:00:02Z","type":"event_msg","payload":{"type":"user_message","message":"fix  the bug"}}"#,
        r#"{"timestamp":"2025-01-01T10:00:03Z","type":"response_item","payload":{"type":"message","role":"user","text":"fix the bug"}}"#,
        r#"{"timestamp":"2025-01-01T10:00:04Z","type":"response_item","payload":{"type":"message","role":"assistant","text":"done"}}"#,
        r#"{"timestamp":"2025-01-01T10:00:05Z","type":"event_msg","payload":{"type":"error","message":"stream disconnected before completion"}}"#,
        r#"{"timestamp":"2025-01-01T10:00:06Z","type":"event_msg","payload":{"type":"turn_aborted"}}"#,
        r#"{"type":"event_msg","payload":{"type":"user_message","message":"<environment_context>x</environment_context>"}}"#,
        r#"{"timestamp":"2025-01-01T10:00:07Z","type":"response_item","payload":{"type":"message","role":"system","text":"ignored"}}"#,
        "not json at all",
    ])
}

#[test]
fn parse_session_builds_summary() {
    let log = sample_log();
    let name = "rollout-2025-01-01T10-00-00-sess-1.jsonl";
    assert!(parse_session_defined("C:\\h\\sessions\\x.jsonl", name, &log));
    let s = parse_session("C:\\h\\sessions\\x.jsonl".to_string(), name, &log);
    assert_eq!(s.id, "sess-1");
    assert_eq!(s.path, "C:\\h\\sessions\\x.jsonl");
    assert_eq!(s.first_timestamp, "2025-01-01T10:00:00Z");
    assert_eq!(s.last_timestamp, "2025-01-01T10:00:07Z");
    assert_eq!(s.cwd, "C:\\proj");
    assert_eq!(s.provider, "openai");
    assert_eq!(s.model, "gpt-5.1");
    assert_eq!(s.source, "codex_cli");
    assert_eq!(s.thread_name, "");
    assert_eq!(s.messages.len(), 2);
    assert_eq!(s.messages[0].role, "user");
    assert_eq!(s.messages[0].text, "fix the bug");
    assert_eq!(s.messages[0].timestamp, "2025-01-01T10:00:02Z");
    assert_eq!(s.messages[1].role, "assistant");
    assert_eq!(s.messages[1].text, "done");
    assert_eq!(s.errors, vec!["stream disconnected before completion".to_string()]);
    assert_eq!(
        s.event_types,
        vec![
            "user_message".to_string(),
            "error".to_string(),
            "turn_aborted".to_string(),
            "user_message".to_string()
        ]
    );
    assert_eq!(s.user_turns(), 1);
    assert_eq!(s.assistant_turns(), 1);
    assert_eq!(s.aborted_turns(), 1);
    assert_eq!(s.rolled_back_turns(), 0);
}

#[test]
fn parse_session_falls_back_to_file_name() {
    let log = lines(&[r#"{"timestamp":"t1","type":"event_msg","payload":{"type":"thread_rolled_back"}}"#]);
    let name = "rollout-2025-01-01T10-00-00-abc.jsonl";
    let s = parse_session("p".to_string(), name, &log);
    assert_eq!(s.id, "01T10-00-00-abc");
    assert_eq!(s.first_timestamp, "t1");
    assert_eq!(s.rolled_back_turns(), 1);
    let empty = parse_session("q".to_string(), "other.jsonl", &Vec::new());
    assert_eq!(empty.id, "other");
    assert!(empty.messages.is_empty());
}

#[test]
fn parse_session_source_prefers_source_key() {
    let log = lines(&[
        r#"{"type":"session_meta","payload":{"id":"a","source":"vscode","originator":"cli"}}"#,
    ]);
    let s = parse_session("p".to_string(), "f.jsonl", &log);
    assert_eq!(s.source, "vscode");
}

#[test]
fn parse_session_skips_repeated_user_text() {
    let log = lines(&[
        r#"{"type":"response_item","payload":{"type":"message","role":"user","text":"same"}}"#,
        r#"{"type":"response_item","payload":{"type":"message","role":"assistant","text":"a1"}}"#,
        r#"{"type":"response_item","payload":{"type":"message","role":"user","text":"same"}}"#,
        r#"{"type":"response_item","payload":{"type":"message","role":"tool","text":"t1"}}"#,
        r#"{"type":"response_item","payload":{"type":"message","role":"tool","text":"t2"}}"#,
        r#"{"type":"response_item","payload":{"type":"message","role":"tool","text":"t3"}}"#,
        r#"{"type":"response_item","payload":{"type":"message","role":"user","text":"same"}}"#,
    ]);
    let s = parse_session("p".to_string(), "f.jsonl", &log);
    let texts: Vec<&str> = s.messages.iter().map(|m| m.text.as_str()).collect();
    assert_eq!(texts, vec!["same", "a1", "t1", "t2", "t3", "same"]);
}

#[test]
fn session_turn_counts() {
    let mut s = Session::new("p".to_string());
    for (role, text) in [("user", "a"), ("assistant", "b"), ("user", "c"), ("tool", "d")] {
        s.messages.push(Message { timestamp: String::new(), role: role.to_string(), text: text.to_string() });
    }
    s.event_types = lines(&["turn_aborted", "thread_rolled_back", "turn_aborted", "x"]);
    assert_eq!(s.user_turns(), 2);
    assert_eq!(s.assistant_turns(), 1);
    assert_eq!(s.aborted_turns(), 2);
    assert_eq!(s.rolled_back_turns(), 1);
}

// ----- catalog -----

#[test]
fn thread_names_reads_index() {
    let idx = lines(&[
        r#"{"id":"a","thread_name":"First","updated_at":"x"}"#,
        r#"{"id":"b"}"#,
        r#"{"id":"a","thread_name":"Renamed"}"#,
        r#"{"thread_name":"orphan"}"#,
    ]);
    assert!(thread_index_defined(&idx));
    let entries = thread_names(&idx);
    assert_eq!(
        entries,
        vec![("a".to_string(), "First".to_string()), ("a".to_string(), "Renamed".to_string())]
    );
    assert_eq!(thread_name_for(&entries, "a"), Some("Renamed".to_string()));
    assert_eq!(thread_name_for(&entries, "b"), None);
}

#[test]
fn log_file_names() {
    assert!(is_rollout_file_name("rollout-2025.jsonl"));
    assert!(!is_rollout_file_name("rollout-2025.json"));
    assert!(!is_rollout_file_name("x-rollout.jsonl"));
    assert!(is_restore_backup_dir_name("restore-backup-20250101"));
    assert!(!is_restore_backup_dir_name("backup-restore"));
    assert!(is_archive_path(r"C:\Users\u\.codex\archived_sessions\rollout-x.jsonl"));
    assert!(is_archive_path(r"C:\u\.codex\restore-backup-1\rollout.jsonl"));
    assert!(!is_archive_path(r"C:\Users\u\.codex\sessions\2025\rollout-x.jsonl"));
}

#[test]
fn list_sessions_dedups_names_and_sorts() {
    let parsed = vec![
        session("a", r"C:\h\sessions\rollout-1.jsonl", "2025-01-02"),
        session("", r"C:\h\sessions\rollout-0.jsonl", "2025-01-01"),
        session("b", r"C:\h\sessions\rollout-2.jsonl", ""),
        session("a", r"C:\h\archived_sessions\rollout-1.jsonl", "2025-01-01"),
        session("c", r"C:\h\archived_sessions\rollout-3.jsonl", "2025-01-03"),
    ];
    let entries = vec![("c".to_string(), "Named C".to_string())];
    let out = list_sessions(parsed, &entries);
    let ids: Vec<&str> = out.iter().map(|s| s.id.as_str()).collect();
    assert_eq!(ids, vec!["a", "c", "b"]);
    assert_eq!(out[1].thread_name, "Named C");
    assert_eq!(out[0].thread_name, "");
}

#[test]
fn select_sessions_keeps_archive_before_live() {
    // An archived copy met before the live log is kept, and so is the live log.
    let parsed = vec![
        session("a", r"C:\h\archived_sessions\rollout-1.jsonl", "1"),
        session("a", r"C:\h\sessions\rollout-1.jsonl", "2"),
        session("a", r"C:\h\restore-backup-9\rollout-1.jsonl", "3"),
    ];
    let out = select_sessions(parsed, &Vec::new());
    let firsts: Vec<&str> = out.iter().map(|s| s.first_timestamp.as_str()).collect();
    assert_eq!(firsts, vec!["1", "2"]);
}

#[test]
fn sort_sessions_is_stable() {
    let input = vec![
        session("x", "p3", "2025-02"),
        session("y", "p1", "2025-01"),
        session("z", "p2", "2025-02"),
        session("w", "2025-01", ""),
    ];
    let out = sort_sessions(input);
    let ids: Vec<&str> = out.iter().map(|s| s.id.as_str()).collect();
    assert_eq!(ids, vec!["y", "w", "x", "z"]);
}

#[test]
fn listed_sessions_are_ordered_and_unique() {
    let parsed = vec![
        session("d", r"C:\h\sessions\rollout-4.jsonl", "2025-03"),
        session("a", r"C:\h\sessions\rollout-1.jsonl", "2025-01"),
        session("a", r"C:\h\archived_sessions\rollout-1.jsonl", "2025-00"),
        session("b", r"C:\h\sessions\rollout-2.jsonl", "2025-02"),
    ];
    let out = list_sessions(parsed, &Vec::new());
    for w in out.windows(2) {
        assert!(w[0].first_timestamp <= w[1].first_timestamp);
    }
    let ids: Vec<&str> = out.iter().map(|s| s.id.as_str()).collect();
    assert_eq!(ids, vec!["a", "b", "d"]);
}

#[test]
fn sanitized_text_shape() {
    for t in ["  a\t\tb\n\nc \0 d  ", "\0\0", "x", " token=1   sk-abcdefghijklmnopq  "] {
        let s = sanitize(t);
        assert!(!s.contains('\0'));
        assert_eq!(s.trim(), s);
        assert!(!s.contains("  "));
        assert!(s.chars().all(|c| !c.is_whitespace() || c == ' '));
    }
}
