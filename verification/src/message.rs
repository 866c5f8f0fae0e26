//! The conversation messages that compaction reads and rewrites.
use vstd::prelude::*;

verus! {

/// Who wrote a message.
#[derive(Clone, Copy, Debug, PartialEq, Eq, Structural)]
pub enum Role {
    User,
    Assistant,
}

/// One block of a message's content.
#[derive(Clone, Debug)]
pub enum ContentBlock {
    /// Plain text.
    Text { text: String },
    /// A tool call; `input` holds the call's JSON arguments as text.
    ToolUse { id: String, name: String, input: String },
    /// The result of the tool call `tool_use_id`.
    ToolResult { tool_use_id: String, content: String, is_error: Option<bool> },
}

/// A message: its author and its content blocks.
#[derive(Clone, Debug)]
pub struct Message {
    pub role: Role,
    pub content: Vec<ContentBlock>,
}

/// The abstract value of a content block.
pub enum BlockView {
    Text { text: Seq<char> },
    ToolUse { id: Seq<char>, name: Seq<char>, input: Seq<char> },
    ToolResult { tool_use_id: Seq<char>, content: Seq<char>, is_error: Option<bool> },
}

/// The abstract value of a message.
pub struct MessageView {
    pub role: Role,
    pub content: Seq<BlockView>,
}

impl View for ContentBlock {
    type V = BlockView;

    open spec fn view(&self) -> BlockView {
        match self {
            ContentBlock::Text { text } => BlockView::Text { text: text@ },
            ContentBlock::ToolUse { id, name, input } => BlockView::ToolUse {
                id: id@,
                name: name@,
                input: input@,
            },
            ContentBlock::ToolResult { tool_use_id, content, is_error } => BlockView::ToolResult {
                tool_use_id: tool_use_id@,
                content: content@,
                is_error: *is_error,
            },
        }
    }
}

/// The views of a sequence of blocks.
pub open spec fn blocks_view(blocks: Seq<ContentBlock>) -> Seq<BlockView> {
    blocks.map_values(|b: ContentBlock| b@)
}

impl View for Message {
    type V = MessageView;

    open spec fn view(&self) -> MessageView {
        MessageView { role: self.role, content: blocks_view(self.content@) }
    }
}

/// The views of a sequence of messages.
pub open spec fn messages_view(messages: Seq<Message>) -> Seq<MessageView> {
    messages.map_values(|m: Message| m@)
}

/// A copy of `block` with the same value.
pub fn copy_block(block: &ContentBlock) -> (r: ContentBlock)
    ensures
        r@ == block@,
{
    match block {
        ContentBlock::Text { text } => ContentBlock::Text { text: text.clone() },
        ContentBlock::ToolUse { id, name, input } => ContentBlock::ToolUse {
            id: id.clone(),
            name: name.clone(),
            input: input.clone(),
        },
        ContentBlock::ToolResult { tool_use_id, content, is_error } => ContentBlock::ToolResult {
            tool_use_id: tool_use_id.clone(),
            content: content.clone(),
            is_error: *is_error,
        },
    }
}

/// A copy of `message` with the same value.
pub fn copy_message(message: &Message) -> (r: Message)
    ensures
        r@ == message@,
{
    let mut content: Vec<ContentBlock> = Vec::new();
    let mut i: usize = 0;
    while i < message.content.len()
        invariant
            i <= message.content@.len(),
            content@.len() == i,
            forall|k: int| 0 <= k < i ==> #[trigger] content@[k]@ == message.content@[k]@,
        decreases message.content.len() - i,
    {
        let b = copy_block(&message.content[i]);
        content.push(b);
        i = i + 1;
    }
    assert(blocks_view(content@) =~= blocks_view(message.content@));
    Message { role: message.role, content }
}

/// A copy of every message, in order (`<[Message]>::to_vec`).
pub fn copy_messages(messages: &[Message]) -> (r: Vec<Message>)
    ensures
        messages_view(r@) == messages_view(messages@),
{
    let mut out: Vec<Message> = Vec::new();
    let mut i: usize = 0;
    while i < messages.len()
        invariant
            i <= messages@.len(),
            out@.len() == i,
            forall|k: int| 0 <= k < i ==> #[trigger] out@[k]@ == messages@[k]@,
        decreases messages.len() - i,
    {
        let m = copy_message(&messages[i]);
        out.push(m);
        i = i + 1;
    }
    assert(messages_view(out@) =~= messages_view(messages@));
    out
}

} // verus!
