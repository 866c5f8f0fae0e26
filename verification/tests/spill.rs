use sha2::{Digest, Sha256};
use tool_artifacts::spill::{
    artifact_dir_from_config, artifact_path, count_lines, is_spilled_tool_result,
    resolve_artifact_dir, safe_component, sha256_hex, spill_tool_result, SpillFeatures,
    SpillStats, ToolResultSpillConfig, SPILLED_MARKER,
};

fn cfg(dir: &str) -> ToolResultSpillConfig {
    ToolResultSpillConfig {
        enabled: true,
        inline_threshold_bytes: 8,
        preview_head_bytes: 4,
        preview_tail_bytes: 3,
        artifact_dir: dir.to_string(),
    }
}

#[test]
fn spilled_marker_is_idempotent() {
    assert!(is_spilled_tool_result("[tool result spilled]\ncall_id=x"));
    assert!(!is_spilled_tool_result("normal output"));
}

#[test]
fn spilled_marker_after_leading_white_space() {
    assert!(is_spilled_tool_result("  \n\t[tool result spilled]"));
    assert!(!is_spilled_tool_result("x[tool result spilled]"));
    assert!(!is_spilled_tool_result("[tool result spill"));
    assert!(!is_spilled_tool_result(""));
}

#[test]
fn saved_bytes_saturates() {
    let s = SpillStats { count: 1, original_bytes: 100, inline_bytes: 30 };
    assert_eq!(s.saved_bytes(), 70);
    let s = SpillStats { count: 1, original_bytes: 10, inline_bytes: 30 };
    assert_eq!(s.saved_bytes(), 0);
}

#[test]
fn safe_component_replaces_and_truncates() {
    assert_eq!(safe_component("call_01-a.b"), "call_01-a.b");
    assert_eq!(safe_component("a/b c:d"), "a_b_c_d");
    assert_eq!(safe_component(""), "unknown");
    assert_eq!(safe_component("é"), "_");
    let long = "x".repeat(300);
    assert_eq!(safe_component(&long), "x".repeat(120));
    let s = safe_component("a/b/../c");
    assert_eq!(safe_component(&s), s);
}

#[test]
fn count_lines_counts_std_lines() {
    assert_eq!(count_lines(""), 0);
    assert_eq!(count_lines("one"), 1);
    assert_eq!(count_lines("one\ntwo\n"), 2);
    assert_eq!(count_lines("one\n\nthree"), 3);
}

#[test]
fn sha256_hex_of_known_vectors() {
    assert_eq!(
        sha256_hex(b""),
        "e3b0c44298fc1c149afbf4c8996fb92427ae41e4649b934ca495991b7852b855"
    );
    assert_eq!(
        sha256_hex(b"abc"),
        "ba7816bf8f01cfea414140de5dae2223b00361a396177a9cb410ff61f20015ad"
    );
}

#[test]
fn artifact_path_under_session_dir() {
    let p = artifact_path("/tmp/arts", "sess/1", "call 7", "0123456789abcdef");
    assert_eq!(p, "/tmp/arts/sess_1/call_7-0123456789ab.txt");
}

#[test]
fn artifact_dir_resolution() {
    assert_eq!(
        resolve_artifact_dir(Some("/data/arts".to_string()), None, None),
        "/data/arts"
    );
    assert_eq!(
        resolve_artifact_dir(Some("~/arts".to_string()), Some("/home/u".to_string()), None),
        "/home/u/arts"
    );
    assert_eq!(resolve_artifact_dir(Some("~/arts".to_string()), None, None), "~/arts");
    assert_eq!(
        resolve_artifact_dir(Some("  ".to_string()), None, Some("/j".to_string())),
        "/j/tool-artifacts"
    );
    assert_eq!(
        resolve_artifact_dir(None, Some("/home/u".to_string()), None),
        "/home/u/.jcode/tool-artifacts"
    );
    assert_eq!(resolve_artifact_dir(None, None, None), "./.jcode/tool-artifacts");
    assert_eq!(
        artifact_dir_from_config(None, Some("/j".to_string())),
        "/j/tool-artifacts"
    );
    assert_eq!(
        artifact_dir_from_config(Some("/x".to_string()), None),
        "/x"
    );
    let home = artifact_dir_from_config(Some("~/arts".to_string()), None);
    match dirs::home_dir() {
        Some(h) => assert_eq!(home, h.join("arts").to_str().unwrap()),
        None => assert_eq!(home, "~/arts"),
    }
}

#[test]
fn load_reads_feature_settings() {
    let features = SpillFeatures {
        tool_result_spill_enabled: true,
        tool_result_inline_threshold_bytes: 100,
        tool_result_preview_head_bytes: 10,
        tool_result_preview_tail_bytes: 20,
        tool_result_artifact_dir: Some("/arts".to_string()),
    };
    let c = ToolResultSpillConfig::load(&features, None);
    assert!(c.enabled);
    assert_eq!(c.inline_threshold_bytes, 100);
    assert_eq!(c.preview_head_bytes, 10);
    assert_eq!(c.preview_tail_bytes, 20);
    assert_eq!(c.artifact_dir, "/arts");
}

#[test]
fn spill_builds_the_inline_replacement() {
    let raw = "line one\nline two\nline three\n";
    let r = spill_tool_result("s1", "call-9", "bash", raw, &cfg("/arts"));
    let sha = format!("{:x}", Sha256::digest(raw.as_bytes()));
    assert_eq!(r.sha256, sha);
    assert_eq!(r.sha256.len(), 64);
    assert_eq!(r.original_bytes, raw.len());
    assert_eq!(r.original_lines, 3);
    let path = format!("/arts/s1/call-9-{}.txt", &sha[..12]);
    assert_eq!(r.artifact_path, path);
    let template = format!(
        "{SPILLED_MARKER}\ntool=bash\ncall_id=call-9\noriginal_bytes={}\noriginal_lines=3\ninline_bytes=0\nartifact={}\nsha256={}\npreview_strategy=head_tail\npreview:\nline\n...\nee\n",
        raw.len(),
        path,
        sha
    );
    let expected = template.replace("inline_bytes=0", &format!("inline_bytes={}", template.len()));
    assert_eq!(r.inline_replacement, expected);
    assert!(is_spilled_tool_result(&r.inline_replacement));
}

#[test]
fn spill_with_a_given_digest() {
    let sha = "00112233445566778899aabbccddeeff".to_string();
    let r = tool_artifacts::spill::spill_with_sha256("s", "c", "t", "αβγ", sha.clone(), &cfg(""));
    assert_eq!(r.artifact_path, "s/c-001122334455.txt");
    assert_eq!(r.sha256, sha);
    assert_eq!(r.original_bytes, 6);
    assert_eq!(r.original_lines, 1);
    let template = format!(
        "{SPILLED_MARKER}\ntool=t\ncall_id=c\noriginal_bytes=6\noriginal_lines=1\ninline_bytes=0\nartifact=s/c-001122334455.txt\nsha256={}\npreview_strategy=head_tail\npreview:\nαβγ",
        sha
    );
    let expected = template.replace("inline_bytes=0", &format!("inline_bytes={}", template.len()));
    assert_eq!(r.inline_replacement, expected);
}
