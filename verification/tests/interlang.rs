use tool_artifacts::interlang::{compress_messages_for_request, snapshot, InterlangSnapshot};
use tool_artifacts::message::{ContentBlock, Message, Role};

#[test]
fn compression_hook_is_lossless_without_external_compressor() {
    let messages: Vec<Message> = Vec::new();
    let compressed = compress_messages_for_request(&messages);
    assert_eq!(compressed.len(), messages.len());
}

#[test]
fn compression_hook_keeps_every_block() {
    let messages = vec![
        Message {
            role: Role::User,
            content: vec![ContentBlock::Text { text: "hi".to_string() }],
        },
        Message {
            role: Role::Assistant,
            content: vec![
                ContentBlock::ToolUse {
                    id: "c1".to_string(),
                    name: "bash".to_string(),
                    input: "{\"cmd\":\"ls\"}".to_string(),
                },
                ContentBlock::ToolResult {
                    tool_use_id: "c1".to_string(),
                    content: "a\nb".to_string(),
                    is_error: Some(false),
                },
            ],
        },
    ];
    let compressed = compress_messages_for_request(&messages);
    assert_eq!(format!("{:?}", compressed), format!("{:?}", messages));
}

#[test]
fn snapshot_is_empty_while_nothing_was_saved() {
    assert!(snapshot(0, 0).is_none());
    let s = snapshot(10, 0).unwrap();
    assert_eq!(s, InterlangSnapshot { total_saved_tokens: 10, latest_saved_tokens: 0 });
    let s = snapshot(0, 3).unwrap();
    assert_eq!(s.latest_saved_tokens, 3);
    assert_eq!(InterlangSnapshot::default(), InterlangSnapshot { total_saved_tokens: 0, latest_saved_tokens: 0 });
}
