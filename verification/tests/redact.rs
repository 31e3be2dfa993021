use codex_mem9::redact::{
    apply_redaction, redact_matches, redact_plain_paths, replace_loopback, replace_private,
    sanitize_mem9_content, segments_from_spans, simplify_inline_code, simplify_with, CaptureSpan,
    MatchSegment, Redaction,
    INLINE_CODE, LOOPBACK_URL,
};

#[test]
fn redacts_session_paths_and_loopback() {
    let text = "See `~/.codex/sessions/a/rollout-x.jsonl` and http://127.0.0.1:8081/api";
    let sanitized = sanitize_mem9_content(text);
    assert!(sanitized.contains("Codex session rollout JSONL file"));
    assert!(sanitized.contains("loopback address (port 8081)"));
}

#[test]
fn redacts_private_networks() {
    let text = "The service listens on 192.168.64.1:5000";
    let sanitized = sanitize_mem9_content(text);
    assert!(sanitized.contains("private network address (port 5000)"));
}

#[test]
fn keeps_non_path_inline_code_with_slashes() {
    let text = "Use `content/json` and `v1/api` as literal values.";
    let sanitized = sanitize_mem9_content(text);
    assert!(sanitized.contains("content/json"));
    assert!(sanitized.contains("v1/api"));
}

#[test]
fn still_redacts_explicit_paths() {
    let text = "Read `~/project/file.txt` before continuing.";
    let sanitized = sanitize_mem9_content(text);
    assert!(sanitized.contains("related path"));
}

#[test]
fn sanitize_gives_exact_text_for_each_pattern() {
    assert_eq!(
        sanitize_mem9_content("open ~/.codex/sessions/2025/x.jsonl now"),
        "open Codex session rollout JSONL file now"
    );
    assert_eq!(
        sanitize_mem9_content("hit localhost:3000 then 10.0.0.7"),
        "hit loopback address (port 3000) then private network address"
    );
    assert_eq!(
        sanitize_mem9_content("call https://172.16.0.1:8443/health"),
        "call private network address (port 8443)"
    );
    assert_eq!(sanitize_mem9_content("plain words"), "plain words");
    assert_eq!(sanitize_mem9_content(""), "");
}

#[test]
fn inline_code_simplification_cases() {
    assert_eq!(simplify_inline_code("curl -X POST"), "related command");
    assert_eq!(simplify_inline_code("GIT status"), "related command");
    assert_eq!(simplify_inline_code("see http://x"), "related address");
    assert_eq!(simplify_inline_code("--verbose"), "related command argument");
    assert_eq!(simplify_inline_code("./run.sh"), "related path");
    assert_eq!(simplify_inline_code("../up"), "related path");
    assert_eq!(simplify_inline_code("/etc/hosts"), "related path");
    assert_eq!(simplify_inline_code("~ x"), "~ x");
    assert_eq!(simplify_inline_code("content/json"), "content/json");
    assert_eq!(simplify_inline_code("user@example"), "related command");
}

#[test]
fn port_phrases() {
    assert_eq!(replace_loopback(Some("8081")), "loopback address (port 8081)");
    assert_eq!(replace_loopback(None), "loopback address");
    assert_eq!(replace_private(Some("22")), "private network address (port 22)");
    assert_eq!(replace_private(None), "private network address");
}

#[test]
fn apply_redaction_replaces_only_matches() {
    let segments = vec![
        MatchSegment { text: "a ".to_string(), matched: false, group: None },
        MatchSegment {
            text: "localhost:1".to_string(),
            matched: true,
            group: Some("1".to_string()),
        },
        MatchSegment { text: " b".to_string(), matched: false, group: None },
    ];
    assert_eq!(
        apply_redaction(&segments, Redaction::Loopback),
        "a loopback address (port 1) b"
    );
    assert_eq!(
        apply_redaction(&segments, Redaction::SessionFile),
        "a Codex session rollout JSONL file b"
    );
    let unmatched = vec![MatchSegment { text: "keep".to_string(), matched: false, group: None }];
    assert_eq!(apply_redaction(&unmatched, Redaction::InlineCode), "keep");
}

#[test]
fn redact_matches_uses_the_pattern() {
    assert_eq!(
        redact_matches(INLINE_CODE, Redaction::InlineCode, "run `npm test` and `x`"),
        "run related command and x"
    );
    assert_eq!(
        redact_matches(LOOPBACK_URL, Redaction::Loopback, "go http://localhost/a"),
        "go loopback address"
    );
    assert_eq!(
        redact_matches("(", Redaction::Loopback, "unchanged ("),
        "unchanged ("
    );
}

#[test]
fn plain_absolute_paths_become_related_path() {
    assert_eq!(
        redact_plain_paths("Read /Users/example/project/file-a.txt now"),
        "Read related path now"
    );
    assert_eq!(redact_plain_paths("/etc/hosts\tand\n/var/log"), "related path\tand\nrelated path");
    assert_eq!(redact_plain_paths("a / b and/or c"), "a / b and/or c");
    assert_eq!(redact_plain_paths("`cd /tmp` stays"), "`cd /tmp` stays");
    assert_eq!(redact_plain_paths("x /tmp` y"), "x /tmp` y");
    assert_eq!(redact_plain_paths(""), "");
    assert_eq!(redact_plain_paths("no slash, only words"), "no slash, only words");
    assert_eq!(
        sanitize_mem9_content("Learning: Read /Users/example/project/file-a.txt"),
        "Learning: Read related path"
    );
}

#[test]
fn simplify_with_decides_by_the_given_lowering_and_match() {
    assert_eq!(simplify_with("LOCALHOST", "localhost", None), "related address");
    assert_eq!(simplify_with("Curl x", "curl x", Some(true)), "related command");
    assert_eq!(simplify_with("--flag", "--flag", Some(true)), "related command argument");
    assert_eq!(simplify_with("/a", "/a", Some(true)), "related path");
    assert_eq!(simplify_with("/a", "/a", Some(false)), "/a");
    assert_eq!(simplify_with("/a", "/a", None), "/a");
    assert_eq!(simplify_with("Foo", "foo", Some(false)), "Foo");
    assert_eq!(simplify_with("CURL", "CURL", None), "CURL");
    assert_eq!(simplify_inline_code("CURL"), "related command");
}

fn parts(segments: &[MatchSegment]) -> Vec<(String, bool, Option<String>)> {
    segments.iter().map(|s| (s.text.clone(), s.matched, s.group.clone())).collect()
}

#[test]
fn segments_from_spans_cut_at_byte_offsets() {
    let text = "x\u{e9}-yz \u{1f600}!";
    let spans = vec![
        CaptureSpan { start: 1, end: 3, group: Some("g".to_string()) },
        CaptureSpan { start: 4, end: 4, group: None },
        CaptureSpan { start: 7, end: 11, group: None },
    ];
    let segments = segments_from_spans(text, &spans);
    assert_eq!(
        parts(&segments),
        vec![
            ("x".to_string(), false, None),
            ("\u{e9}".to_string(), true, Some("g".to_string())),
            ("-".to_string(), false, None),
            ("".to_string(), true, None),
            ("yz ".to_string(), false, None),
            ("\u{1f600}".to_string(), true, None),
            ("!".to_string(), false, None),
        ]
    );
    let spelled: String = segments.iter().map(|s| s.text.as_str()).collect();
    assert_eq!(spelled, text);
    assert_eq!(parts(&segments_from_spans("abc", &vec![])), vec![("abc".to_string(), false, None)]);
}
