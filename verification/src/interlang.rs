//! The request-compression hook and the token savings it reports.
use vstd::prelude::*;

use crate::message::{copy_messages, messages_view, Message};

verus! {

/// The tokens saved by compression: in all, and by the latest request.
#[derive(Clone, Copy, Debug, PartialEq, Eq, Structural)]
pub struct InterlangSnapshot {
    pub total_saved_tokens: u64,
    pub latest_saved_tokens: u64,
}

impl Default for InterlangSnapshot {
    fn default() -> (r: Self)
        ensures
            r.total_saved_tokens == 0,
            r.latest_saved_tokens == 0,
    {
        InterlangSnapshot { total_saved_tokens: 0, latest_saved_tokens: 0 }
    }
}

/// The savings to report for the given counters: nothing while both are
/// zero.
pub fn snapshot(total_saved_tokens: u64, latest_saved_tokens: u64) -> (r: Option<
    InterlangSnapshot,
>)
    ensures
        (total_saved_tokens == 0 && latest_saved_tokens == 0) <==> r is None,
        r matches Some(s) ==> s.total_saved_tokens == total_saved_tokens
            && s.latest_saved_tokens == latest_saved_tokens,
{
    if total_saved_tokens == 0 && latest_saved_tokens == 0 {
        None
    } else {
        Some(InterlangSnapshot { total_saved_tokens, latest_saved_tokens })
    }
}

/// The messages to send with a request. Without an external compressor
/// the hook is lossless: it gives back the same messages.
pub fn compress_messages_for_request(messages: &[Message]) -> (r: Vec<Message>)
    ensures
        messages_view(r@) == messages_view(messages@),
{
    copy_messages(messages)
}

} // verus!
