use tool_artifacts::reading::{
    artifact_target, artifact_title, find_artifact_by_call_id, select_artifact_lines,
    ArtifactFile, ArtifactTarget, ReadToolArtifactInput, ReadToolArtifactTool,
    ToolArtifactError,
};

fn file(path: &str, name: Option<&str>) -> ArtifactFile {
    ArtifactFile { path: path.to_string(), file_name: name.map(|n| n.to_string()) }
}

#[test]
fn excerpt_without_range_is_the_whole_text() {
    assert_eq!(select_artifact_lines("a\r\nb", None, None), "a\r\nb");
}

#[test]
fn excerpt_of_a_line_range() {
    let text = "one\ntwo\r\nthree\nfour";
    assert_eq!(select_artifact_lines(text, Some(2), Some(3)), "two\nthree\n");
    assert_eq!(select_artifact_lines(text, Some(0), Some(1)), "one\n");
    assert_eq!(select_artifact_lines(text, Some(3), None), "three\nfour\n");
    assert_eq!(select_artifact_lines(text, None, Some(2)), "one\ntwo\n");
    assert_eq!(select_artifact_lines(text, Some(5), None), "");
    assert_eq!(select_artifact_lines(text, Some(3), Some(2)), "");
    assert_eq!(select_artifact_lines("", Some(1), None), "");
}

#[test]
fn find_artifact_of_a_call() {
    let files = vec![
        file("/a/s/call_1-abc.txt", Some("call_1-abc.txt")),
        file("/a/s/other-abc.txt", Some("other-abc.txt")),
        file("/a/s/call_1-abc.tmp", Some("call_1-abc.tmp")),
        file("/a/s/weird", None),
    ];
    assert_eq!(find_artifact_by_call_id("call 1", &files).unwrap(), "/a/s/call_1-abc.txt");
    match find_artifact_by_call_id("nope", &files) {
        Err(ToolArtifactError::NoArtifactForCallId { call_id }) => assert_eq!(call_id, "nope"),
        other => panic!("unexpected {:?}", other),
    }
    let dup = vec![
        file("/a/s/c-1.txt", Some("c-1.txt")),
        file("/a/t/c-2.txt", Some("c-2.txt")),
    ];
    let err = find_artifact_by_call_id("c", &dup).unwrap_err();
    assert_eq!(
        err.message(),
        "multiple tool artifacts found for call_id=c; pass artifact path explicitly"
    );
}

#[test]
fn error_messages() {
    assert_eq!(
        ToolArtifactError::NoArtifactForCallId { call_id: "x".to_string() }.message(),
        "no tool artifact found for call_id=x"
    );
    assert_eq!(
        ToolArtifactError::MissingArtifactOrCallId.message(),
        "provide either artifact or call_id"
    );
}

#[test]
fn target_prefers_a_non_blank_artifact() {
    let input = |artifact: Option<&str>, call_id: Option<&str>| ReadToolArtifactInput {
        call_id: call_id.map(|s| s.to_string()),
        artifact: artifact.map(|s| s.to_string()),
        start_line: None,
        end_line: None,
    };
    match artifact_target(&input(Some("/p.txt"), Some("c"))) {
        Ok(ArtifactTarget::Path(p)) => assert_eq!(p, "/p.txt"),
        other => panic!("unexpected {:?}", other),
    }
    match artifact_target(&input(Some("  "), Some("c"))) {
        Ok(ArtifactTarget::CallId(c)) => assert_eq!(c, "c"),
        other => panic!("unexpected {:?}", other),
    }
    assert!(matches!(
        artifact_target(&input(None, Some(" "))),
        Err(ToolArtifactError::MissingArtifactOrCallId)
    ));
}

#[test]
fn tool_identity() {
    let tool = ReadToolArtifactTool::new();
    assert_eq!(tool.name(), "read_tool_artifact");
    assert!(tool.description().contains("1-based line ranges"));
    assert_eq!(artifact_title("/a/b.txt"), "tool artifact: /a/b.txt");
}

#[test]
fn excerpt_from_line_one_is_every_line() {
    let text = "a\r\nb\n\nc";
    assert_eq!(select_artifact_lines(text, Some(1), None), "a\nb\n\nc\n");
}

#[test]
fn spilled_artifact_is_found_by_its_call_id() {
    let cfg = tool_artifacts::spill::ToolResultSpillConfig {
        enabled: true,
        inline_threshold_bytes: 1,
        preview_head_bytes: 2,
        preview_tail_bytes: 2,
        artifact_dir: "/arts".to_string(),
    };
    let r = tool_artifacts::spill::spill_tool_result("sess", "call:7", "bash", "output text", &cfg);
    let name = r.artifact_path.rsplit('/').next().unwrap().to_string();
    let files = vec![
        file("/arts/sess/other-1.txt", Some("other-1.txt")),
        file(&r.artifact_path, Some(&name)),
        file("/arts/sess/call_7-x.tmp", Some("call_7-x.tmp")),
    ];
    assert_eq!(find_artifact_by_call_id("call:7", &files).unwrap(), r.artifact_path);
}
