use tool_artifacts::compaction::{
    apply_planned_spills, historical_tool_result_message_flags, lookup_tool_name,
    plan_historical_spills, tool_name_by_call_id_messages,
};
use tool_artifacts::message::{ContentBlock, Message, Role};
use tool_artifacts::spill::{is_spilled_tool_result, ToolResultSpillConfig};

fn cfg(enabled: bool) -> ToolResultSpillConfig {
    ToolResultSpillConfig {
        enabled,
        inline_threshold_bytes: 10,
        preview_head_bytes: 4,
        preview_tail_bytes: 4,
        artifact_dir: "/arts".to_string(),
    }
}

fn user(text: &str) -> Message {
    Message { role: Role::User, content: vec![ContentBlock::Text { text: text.to_string() }] }
}

fn call(id: &str, name: &str) -> Message {
    Message {
        role: Role::Assistant,
        content: vec![ContentBlock::ToolUse {
            id: id.to_string(),
            name: name.to_string(),
            input: "{}".to_string(),
        }],
    }
}

fn result(id: &str, content: &str) -> Message {
    Message {
        role: Role::User,
        content: vec![ContentBlock::ToolResult {
            tool_use_id: id.to_string(),
            content: content.to_string(),
            is_error: None,
        }],
    }
}

fn content_of(m: &Message) -> &str {
    match &m.content[0] {
        ContentBlock::ToolResult { content, .. } => content,
        ContentBlock::Text { text } => text,
        ContentBlock::ToolUse { id, .. } => id,
    }
}

fn conversation() -> Vec<Message> {
    vec![
        user("start"),
        call("c1", "bash"),
        result("c1", "a very long tool output indeed"),
        call("c2", "read"),
        result("c2", "short"),
        call("c3", "grep"),
        result("c3", "another very long tool output"),
    ]
}

#[test]
fn flags_mark_messages_before_an_assistant_message() {
    let msgs = conversation();
    let flags = historical_tool_result_message_flags(&msgs);
    assert_eq!(flags, vec![true, true, true, true, true, false, false]);
    assert!(historical_tool_result_message_flags(&[]).is_empty());
}

#[test]
fn tool_names_later_call_wins() {
    let msgs = vec![call("c1", "bash"), call("c2", "read"), call("c1", "grep")];
    let names = tool_name_by_call_id_messages(&msgs);
    assert_eq!(names.len(), 3);
    assert_eq!(lookup_tool_name(&names, "c1"), "grep");
    assert_eq!(lookup_tool_name(&names, "c2"), "read");
    assert_eq!(lookup_tool_name(&names, "zz"), "unknown");
}

#[test]
fn plan_spills_only_long_historical_results() {
    let msgs = conversation();
    let plan = plan_historical_spills("s", &msgs, &cfg(true));
    assert_eq!(plan.len(), 1);
    assert_eq!(plan[0].message_index, 2);
    assert_eq!(plan[0].block_index, 0);
    assert_eq!(plan[0].tool_name, "bash");
    assert!(plan[0].spilled.inline_replacement.contains("tool=bash\ncall_id=c1\n"));
    assert!(plan_historical_spills("s", &msgs, &cfg(false)).is_empty());
}

#[test]
fn apply_replaces_written_spills_and_sums_them() {
    let mut msgs = conversation();
    let plan = plan_historical_spills("s", &msgs, &cfg(true));
    let stats = apply_planned_spills(&mut msgs, &plan, &[true]);
    assert_eq!(stats.count, 1);
    assert_eq!(stats.original_bytes, "a very long tool output indeed".len());
    assert_eq!(stats.inline_bytes, plan[0].spilled.inline_replacement.len());
    assert_eq!(content_of(&msgs[2]), plan[0].spilled.inline_replacement);
    assert!(is_spilled_tool_result(content_of(&msgs[2])));
    assert_eq!(content_of(&msgs[6]), "another very long tool output");
    // Compaction is idempotent.
    assert!(plan_historical_spills("s", &msgs, &cfg(true)).is_empty());
}

#[test]
fn failed_writes_keep_results_inline() {
    let mut msgs = conversation();
    let plan = plan_historical_spills("s", &msgs, &cfg(true));
    let stats = apply_planned_spills(&mut msgs, &plan, &[false]);
    assert_eq!(stats.count, 0);
    assert_eq!(stats.original_bytes, 0);
    assert_eq!(stats.saved_bytes(), 0);
    assert_eq!(format!("{:?}", msgs), format!("{:?}", conversation()));
}
