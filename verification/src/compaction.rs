//! Compaction of historical tool results: which results are spilled, and
//! how the messages change once their artifacts are written.
use vstd::prelude::*;
use vstd::utf8::*;

use crate::message::{copy_block, BlockView, ContentBlock, Message, Role};
use crate::spill::{
    is_spill_of, is_spilled, is_spilled_tool_result, lemma_spill_replacement_is_spilled,
    spill_tool_result, SpillStats, SpilledToolResult, ToolResultSpillConfig,
};
use crate::text::{str_eq, utf8_len};

verus! {

broadcast use {vstd::string::group_string_axioms, vstd::utf8::group_utf8_lib};

/// Whether some message after the `i`-th was written by the assistant:
/// the tool results in the `i`-th message are then historical.
pub open spec fn has_later_assistant(messages: Seq<Message>, i: int) -> bool {
    exists|j: int| i < j < messages.len() && #[trigger] messages[j].role == Role::Assistant
}

/// For each message, whether an assistant message comes after it.
pub fn historical_tool_result_message_flags(messages: &[Message]) -> (r: Vec<bool>)
    ensures
        r@.len() == messages@.len(),
        forall|i: int| 0 <= i < messages@.len() ==> #[trigger] r@[i] == has_later_assistant(
            messages@,
            i,
        ),
{
    let n = messages.len();
    let mut flags: Vec<bool> = Vec::new();
    let mut k: usize = 0;
    while k < n
        invariant
            k <= n,
            n == messages@.len(),
            flags@.len() == k,
        decreases n - k,
    {
        flags.push(false);
        k = k + 1;
    }
    let mut seen = false;
    let mut i = n;
    while i > 0
        invariant
            i <= n,
            n == messages@.len(),
            flags@.len() == n,
            seen == (exists|j: int| i <= j < n && #[trigger] messages@[j].role == Role::Assistant),
            forall|m: int| i <= m < n ==> #[trigger] flags@[m] == has_later_assistant(messages@, m),
        decreases i,
    {
        i = i - 1;
        assert(seen == has_later_assistant(messages@, i as int));
        flags.set(i, seen);
        if messages[i].role == Role::Assistant {
            seen = true;
        }
    }
    flags
}

/// The `(id, name)` of a block that is a tool call.
pub open spec fn block_tool_use(b: ContentBlock) -> Seq<(Seq<char>, Seq<char>)> {
    match b {
        ContentBlock::ToolUse { id, name, .. } => seq![(id@, name@)],
        _ => seq![],
    }
}

/// The `(id, name)` of every tool call among `blocks`, in order.
pub open spec fn tool_uses_of_blocks(blocks: Seq<ContentBlock>) -> Seq<(Seq<char>, Seq<char>)>
    decreases blocks.len(),
{
    if blocks.len() == 0 {
        seq![]
    } else {
        tool_uses_of_blocks(blocks.drop_last()) + block_tool_use(blocks.last())
    }
}

/// The `(id, name)` of every tool call in `messages`, in order.
pub open spec fn tool_uses_of(messages: Seq<Message>) -> Seq<(Seq<char>, Seq<char>)>
    decreases messages.len(),
{
    if messages.len() == 0 {
        seq![]
    } else {
        tool_uses_of(messages.drop_last()) + tool_uses_of_blocks(messages.last().content@)
    }
}

/// The name that the last of `pairs` with the id `id` gives, if any: what a
/// map filled with `pairs` in order holds for `id`.
pub open spec fn last_name_for(pairs: Seq<(Seq<char>, Seq<char>)>, id: Seq<char>) -> Option<
    Seq<char>,
>
    decreases pairs.len(),
{
    if pairs.len() == 0 {
        None
    } else if pairs.last().0 == id {
        Some(pairs.last().1)
    } else {
        last_name_for(pairs.drop_last(), id)
    }
}

/// The views of `(id, name)` pairs.
pub open spec fn pair_views(v: Seq<(String, String)>) -> Seq<(Seq<char>, Seq<char>)> {
    v.map_values(|p: (String, String)| (p.0@, p.1@))
}

/// The `(id, name)` of every tool call in `messages`, in order; for an id
/// that occurs twice the later name counts.
pub fn tool_name_by_call_id_messages(messages: &[Message]) -> (r: Vec<(String, String)>)
    ensures
        pair_views(r@) == tool_uses_of(messages@),
{
    let mut names: Vec<(String, String)> = Vec::new();
    let mut i: usize = 0;
    while i < messages.len()
        invariant
            i <= messages@.len(),
            pair_views(names@) == tool_uses_of(messages@.take(i as int)),
        decreases messages.len() - i,
    {
        let blocks = &messages[i].content;
        let ghost before = names@;
        let mut j: usize = 0;
        while j < blocks.len()
            invariant
                j <= blocks@.len(),
                blocks@ == messages@[i as int].content@,
                pair_views(names@) == pair_views(before) + tool_uses_of_blocks(
                    blocks@.take(j as int),
                ),
            decreases blocks.len() - j,
        {
            let ghost mid = names@;
            match &blocks[j] {
                ContentBlock::ToolUse { id, name, .. } => {
                    names.push((id.clone(), name.clone()));
                    assert(pair_views(names@) =~= pair_views(mid).push((id@, name@)));
                },
                _ => {
                    assert(names@ == mid);
                },
            }
            assert(blocks@.take(j + 1).drop_last() =~= blocks@.take(j as int));
            assert(blocks@.take(j + 1).last() == blocks@[j as int]);
            assert(pair_views(names@) =~= pair_views(mid) + block_tool_use(blocks@[j as int]));
            j = j + 1;
            assert(pair_views(names@) =~= pair_views(before) + tool_uses_of_blocks(
                blocks@.take(j as int),
            ));
        }
        assert(blocks@.take(blocks@.len() as int) =~= blocks@);
        assert(messages@.take(i + 1).drop_last() =~= messages@.take(i as int));
        i = i + 1;
        assert(pair_views(names@) =~= tool_uses_of(messages@.take(i as int)));
    }
    assert(messages@.take(messages@.len() as int) =~= messages@);
    names
}

/// The name of the tool behind the call `id`, or `unknown`.
pub open spec fn tool_name_or_unknown(pairs: Seq<(Seq<char>, Seq<char>)>, id: Seq<char>) -> Seq<
    char,
> {
    match last_name_for(pairs, id) {
        Some(name) => name,
        None => "unknown"@,
    }
}

/// The name recorded for the call `id`, or `unknown`.
pub fn lookup_tool_name(names: &Vec<(String, String)>, id: &str) -> (r: String)
    ensures
        r@ == tool_name_or_unknown(pair_views(names@), id@),
{
    let mut i = names.len();
    assert(names@.take(names@.len() as int) =~= names@);
    while i > 0
        invariant
            i <= names@.len(),
            last_name_for(pair_views(names@), id@) == last_name_for(
                pair_views(names@.take(i as int)),
                id@,
            ),
        decreases i,
    {
        let ghost pv = pair_views(names@.take(i as int));
        assert(pv.last() == (names@[i - 1].0@, names@[i - 1].1@));
        assert(pv.drop_last() =~= pair_views(names@.take(i - 1)));
        if str_eq(names[i - 1].0.as_str(), id) {
            return names[i - 1].1.clone();
        }
        i = i - 1;
    }
    "unknown".to_string()
}

/// The text of a tool result block.
pub open spec fn result_content(b: ContentBlock) -> Seq<char> {
    match b {
        ContentBlock::ToolResult { content, .. } => content@,
        _ => seq![],
    }
}

/// The call id of a tool result block.
pub open spec fn result_call_id(b: ContentBlock) -> Seq<char> {
    match b {
        ContentBlock::ToolResult { tool_use_id, .. } => tool_use_id@,
        _ => seq![],
    }
}

/// Whether the `j`-th block of the `i`-th message is spilled when
/// compacting with `cfg`: spilling is on, the message is historical, and the
/// block is a tool result longer than the threshold that is not spilled yet.
pub open spec fn spill_candidate(
    messages: Seq<Message>,
    cfg: ToolResultSpillConfig,
    i: int,
    j: int,
) -> bool {
    &&& cfg.enabled
    &&& 0 <= i < messages.len()
    &&& has_later_assistant(messages, i)
    &&& 0 <= j < messages[i].content@.len()
    &&& messages[i].content@[j] is ToolResult
    &&& encode_utf8(result_content(messages[i].content@[j])).len() > cfg.inline_threshold_bytes
    &&& !is_spilled(result_content(messages[i].content@[j]))
}

/// A tool result to spill: where it stands, the name of its tool, and its
/// spill.
#[derive(Clone, Debug)]
pub struct PlannedSpill {
    pub message_index: usize,
    pub block_index: usize,
    pub tool_name: String,
    pub spilled: SpilledToolResult,
}

/// Whether position `(i1, j1)` comes before `(i2, j2)`.
pub open spec fn position_before(i1: int, j1: int, i2: int, j2: int) -> bool {
    i1 < i2 || (i1 == i2 && j1 < j2)
}

/// Whether the `k`-th planned spill stands at `(i, j)`.
pub open spec fn planned_at(plan: Seq<PlannedSpill>, k: int, i: int, j: int) -> bool {
    plan[k].message_index == i && plan[k].block_index == j
}

/// Whether `plan` spills exactly the candidates of `messages`, in message
/// and block order, each with the spill of its text.
pub open spec fn is_spill_plan(
    session_id: Seq<char>,
    messages: Seq<Message>,
    cfg: ToolResultSpillConfig,
    plan: Seq<PlannedSpill>,
) -> bool {
    &&& forall|k: int|
        0 <= k < plan.len() ==> spill_candidate(
            messages,
            cfg,
            #[trigger] plan[k].message_index as int,
            plan[k].block_index as int,
        )
    &&& forall|k1: int, k2: int|
        0 <= k1 < k2 < plan.len() ==> position_before(
            #[trigger] plan[k1].message_index as int,
            plan[k1].block_index as int,
            #[trigger] plan[k2].message_index as int,
            plan[k2].block_index as int,
        )
    &&& forall|i: int, j: int|
        #[trigger] spill_candidate(messages, cfg, i, j) ==> exists|k: int|
            0 <= k < plan.len() && #[trigger] planned_at(plan, k, i, j)
    &&& forall|k: int|
        0 <= k < plan.len() ==> {
            let b = messages[plan[k].message_index as int].content@[plan[k].block_index as int];
            &&& #[trigger] plan[k].tool_name@ == tool_name_or_unknown(
                tool_uses_of(messages),
                result_call_id(b),
            )
            &&& is_spill_of(
                plan[k].spilled,
                cfg,
                session_id,
                result_call_id(b),
                plan[k].tool_name@,
                result_content(b),
            )
        }
}

/// The historical tool results of `messages` to spill, each with its spill.
pub fn plan_historical_spills(
    session_id: &str,
    messages: &[Message],
    cfg: &ToolResultSpillConfig,
) -> (r: Vec<PlannedSpill>)
    ensures
        is_spill_plan(session_id@, messages@, *cfg, r@),
        !cfg.enabled ==> r@.len() == 0,
        forall|i: int, j: int|
            cfg.enabled && 0 <= i < messages@.len() && (exists|a: int|
                i < a < messages@.len() && #[trigger] messages@[a].role == Role::Assistant) && 0
                <= j < messages@[i].content@.len() && is_long_unspilled_result(
                #[trigger] messages@[i].content@[j],
                cfg.inline_threshold_bytes,
            ) ==> exists|k: int|
                0 <= k < r@.len() && r@[k].message_index == i && r@[k].block_index == j,
{
    let mut plan: Vec<PlannedSpill> = Vec::new();
    if !cfg.enabled {
        return plan;
    }
    let historical = historical_tool_result_message_flags(messages);
    let names = tool_name_by_call_id_messages(messages);
    let mut i: usize = 0;
    while i < messages.len()
        invariant
            cfg.enabled,
            i <= messages@.len(),
            historical@.len() == messages@.len(),
            forall|m: int|
                0 <= m < messages@.len() ==> #[trigger] historical@[m] == has_later_assistant(
                    messages@,
                    m,
                ),
            pair_views(names@) == tool_uses_of(messages@),
            forall|k: int|
                0 <= k < plan@.len() ==> spill_candidate(
                    messages@,
                    *cfg,
                    #[trigger] plan@[k].message_index as int,
                    plan@[k].block_index as int,
                ),
            forall|k: int| 0 <= k < plan@.len() ==> #[trigger] plan@[k].message_index < i,
            forall|k1: int, k2: int|
                0 <= k1 < k2 < plan@.len() ==> position_before(
                    #[trigger] plan@[k1].message_index as int,
                    plan@[k1].block_index as int,
                    #[trigger] plan@[k2].message_index as int,
                    plan@[k2].block_index as int,
                ),
            forall|i2: int, j2: int|
                #[trigger] spill_candidate(messages@, *cfg, i2, j2) && i2 < i ==> exists|k: int|
                    0 <= k < plan@.len() && #[trigger] planned_at(plan@, k, i2, j2),
            forall|k: int|
                0 <= k < plan@.len() ==> {
                    let b = messages@[plan@[k].message_index as int].content@[plan@[k].block_index as int];
                    &&& #[trigger] plan@[k].tool_name@ == tool_name_or_unknown(
                        tool_uses_of(messages@),
                        result_call_id(b),
                    )
                    &&& is_spill_of(
                        plan@[k].spilled,
                        *cfg,
                        session_id@,
                        result_call_id(b),
                        plan@[k].tool_name@,
                        result_content(b),
                    )
                },
        decreases messages.len() - i,
    {
        if historical[i] {
            let blocks = &messages[i].content;
            let mut j: usize = 0;
            while j < blocks.len()
                invariant
                    cfg.enabled,
                    i < messages@.len(),
                    j <= blocks@.len(),
                    blocks@ == messages@[i as int].content@,
                    has_later_assistant(messages@, i as int),
                    pair_views(names@) == tool_uses_of(messages@),
                    forall|k: int|
                        0 <= k < plan@.len() ==> spill_candidate(
                            messages@,
                            *cfg,
                            #[trigger] plan@[k].message_index as int,
                            plan@[k].block_index as int,
                        ),
                    forall|k: int|
                        0 <= k < plan@.len() ==> position_before(
                            #[trigger] plan@[k].message_index as int,
                            plan@[k].block_index as int,
                            i as int,
                            j as int,
                        ),
                    forall|k1: int, k2: int|
                        0 <= k1 < k2 < plan@.len() ==> position_before(
                            #[trigger] plan@[k1].message_index as int,
                            plan@[k1].block_index as int,
                            #[trigger] plan@[k2].message_index as int,
                            plan@[k2].block_index as int,
                        ),
                    forall|i2: int, j2: int|
                        #[trigger] spill_candidate(messages@, *cfg, i2, j2) && position_before(
                            i2,
                            j2,
                            i as int,
                            j as int,
                        ) ==> exists|k: int|
                            0 <= k < plan@.len() && #[trigger] planned_at(plan@, k, i2, j2),
                    forall|k: int|
                        0 <= k < plan@.len() ==> {
                            let b = messages@[plan@[k].message_index as int].content@[plan@[k].block_index as int];
                            &&& #[trigger] plan@[k].tool_name@ == tool_name_or_unknown(
                                tool_uses_of(messages@),
                                result_call_id(b),
                            )
                            &&& is_spill_of(
                                plan@[k].spilled,
                                *cfg,
                                session_id@,
                                result_call_id(b),
                                plan@[k].tool_name@,
                                result_content(b),
                            )
                        },
                decreases blocks.len() - j,
            {
                let ghost before = plan@;
                match &blocks[j] {
                    ContentBlock::ToolResult { tool_use_id, content, .. } => {
                        if utf8_len(content.as_str()) > cfg.inline_threshold_bytes
                            && !is_spilled_tool_result(content.as_str()) {
                            let tool_name = lookup_tool_name(&names, tool_use_id.as_str());
                            let spilled = spill_tool_result(
                                session_id,
                                tool_use_id.as_str(),
                                tool_name.as_str(),
                                content.as_str(),
                                cfg,
                            );
                            plan.push(
                                PlannedSpill { message_index: i, block_index: j, tool_name, spilled },
                            );
                            proof {
                                assert(spill_candidate(messages@, *cfg, i as int, j as int));
                                assert(planned_at(plan@, before.len() as int, i as int, j as int));
                                assert forall|k: int| 0 <= k < before.len() implies #[trigger] plan@[k]
                                    == before[k] by {}
                            }
                        }
                    },
                    _ => {},
                }
                proof {
                    assert forall|i2: int, j2: int|
                        #[trigger] spill_candidate(messages@, *cfg, i2, j2) && position_before(
                            i2,
                            j2,
                            i as int,
                            j + 1,
                        ) implies exists|k: int|
                        0 <= k < plan@.len() && #[trigger] planned_at(plan@, k, i2, j2) by {
                        if position_before(i2, j2, i as int, j as int) {
                            let k0 = choose|k: int|
                                0 <= k < before.len() && #[trigger] planned_at(before, k, i2, j2);
                            assert(planned_at(plan@, k0, i2, j2));
                        } else {
                            assert(i2 == i && j2 == j);
                            assert(planned_at(plan@, before.len() as int, i2, j2));
                        }
                    }
                }
                j = j + 1;
            }
        }
        proof {
            assert forall|i2: int, j2: int|
                #[trigger] spill_candidate(messages@, *cfg, i2, j2) && i2 < i + 1 implies exists|
                k: int,
            | 0 <= k < plan@.len() && #[trigger] planned_at(plan@, k, i2, j2) by {
                if i2 == i {
                    assert(position_before(i2, j2, i as int, messages@[i as int].content@.len() as int));
                }
            }
        }
        i = i + 1;
    }
    proof {
        lemma_plan_is_every_long_historical_result(session_id@, messages@, *cfg, plan@);
    }
    plan
}

/// Whether the block is a tool result whose text is longer than
/// `threshold` bytes and not spilled yet.
pub open spec fn is_long_unspilled_result(b: ContentBlock, threshold: usize) -> bool {
    b matches ContentBlock::ToolResult { content, .. } && encode_utf8(content@).len() > threshold
        && !is_spilled(content@)
}

/// What a plan holds, stated from the messages themselves: when spilling
/// is on, every tool result of a message that an assistant message follows,
/// at any position in its message, whose text is longer than the threshold
/// and not spilled yet, is planned; nothing else is planned; and no position
/// is planned twice.
pub proof fn lemma_plan_is_every_long_historical_result(
    session_id: Seq<char>,
    messages: Seq<Message>,
    cfg: ToolResultSpillConfig,
    plan: Seq<PlannedSpill>,
)
    requires
        is_spill_plan(session_id, messages, cfg, plan),
    ensures
        forall|i: int, j: int|
            cfg.enabled && 0 <= i < messages.len() && (exists|a: int|
                i < a < messages.len() && #[trigger] messages[a].role == Role::Assistant) && 0 <= j
                < messages[i].content@.len() && is_long_unspilled_result(
                #[trigger] messages[i].content@[j],
                cfg.inline_threshold_bytes,
            ) ==> exists|k: int|
                0 <= k < plan.len() && plan[k].message_index == i && plan[k].block_index == j,
        forall|k: int|
            #![trigger plan[k]]
            0 <= k < plan.len() ==> cfg.enabled && plan[k].message_index < messages.len() && (exists|
                a: int,
            |
                plan[k].message_index < a < messages.len() && #[trigger] messages[a].role
                    == Role::Assistant) && plan[k].block_index
                < messages[plan[k].message_index as int].content@.len() && is_long_unspilled_result(
                messages[plan[k].message_index as int].content@[plan[k].block_index as int],
                cfg.inline_threshold_bytes,
            ),
        forall|k1: int, k2: int|
            #![trigger plan[k1], plan[k2]]
            0 <= k1 < k2 < plan.len() ==> !(plan[k1].message_index == plan[k2].message_index
                && plan[k1].block_index == plan[k2].block_index),
{
    assert forall|i: int, j: int|
        cfg.enabled && 0 <= i < messages.len() && (exists|a: int|
            i < a < messages.len() && #[trigger] messages[a].role == Role::Assistant) && 0 <= j
            < messages[i].content@.len() && is_long_unspilled_result(
            #[trigger] messages[i].content@[j],
            cfg.inline_threshold_bytes,
        ) implies exists|k: int|
        0 <= k < plan.len() && plan[k].message_index == i && plan[k].block_index == j by {
        assert(has_later_assistant(messages, i));
        assert(spill_candidate(messages, cfg, i, j));
        let k = choose|k: int| 0 <= k < plan.len() && #[trigger] planned_at(plan, k, i, j);
        assert(plan[k].message_index == i && plan[k].block_index == j);
    }
    assert forall|k: int| 0 <= k < plan.len() implies cfg.enabled && plan[k].message_index
        < messages.len() && (exists|a: int|
        plan[k].message_index < a < messages.len() && #[trigger] messages[a].role
            == Role::Assistant) && plan[k].block_index
        < messages[plan[k].message_index as int].content@.len() && is_long_unspilled_result(
        messages[plan[k].message_index as int].content@[plan[k].block_index as int],
        cfg.inline_threshold_bytes,
    ) by {
        assert(spill_candidate(messages, cfg, plan[k].message_index as int, plan[k].block_index as int));
    }
    assert forall|k1: int, k2: int| 0 <= k1 < k2 < plan.len() implies !(plan[k1].message_index
        == plan[k2].message_index && plan[k1].block_index == plan[k2].block_index) by {
        assert(position_before(
            plan[k1].message_index as int,
            plan[k1].block_index as int,
            plan[k2].message_index as int,
            plan[k2].block_index as int,
        ));
    }
}

/// `b` with the text of its tool result replaced by `replacement`.
pub open spec fn with_result_content(b: BlockView, replacement: Seq<char>) -> BlockView {
    match b {
        BlockView::ToolResult { tool_use_id, is_error, .. } => BlockView::ToolResult {
            tool_use_id,
            content: replacement,
            is_error,
        },
        _ => b,
    }
}

/// Whether the `k`-th planned spill was written and stands at `(i, j)`.
pub open spec fn written_at(
    plan: Seq<PlannedSpill>,
    written: Seq<bool>,
    k: int,
    i: int,
    j: int,
) -> bool {
    written[k] && planned_at(plan, k, i, j)
}

/// Whether `new` is `old` with the text of each of the first `n` planned
/// spills whose artifact was written replaced by its inline text, and
/// nothing else changed.
pub open spec fn is_compacted_upto(
    old: Seq<Message>,
    plan: Seq<PlannedSpill>,
    written: Seq<bool>,
    new: Seq<Message>,
    n: int,
) -> bool {
    &&& new.len() == old.len()
    &&& forall|i: int|
        0 <= i < old.len() ==> (#[trigger] new[i]).role == old[i].role && new[i].content@.len()
            == old[i].content@.len()
    &&& forall|k: int|
        0 <= k < n && #[trigger] written[k] ==> new[plan[k].message_index as int].content@[plan[k].block_index as int]@
            == with_result_content(
            old[plan[k].message_index as int].content@[plan[k].block_index as int]@,
            plan[k].spilled.inline_replacement@,
        )
    &&& forall|i: int, j: int|
        0 <= i < old.len() && 0 <= j < old[i].content@.len() && !(exists|k: int|
            0 <= k < n && #[trigger] written_at(plan, written, k, i, j)) ==> #[trigger] new[i].content@[j]@
            == old[i].content@[j]@
}

/// Whether `new` is `old` after every planned spill whose artifact was
/// written.
pub open spec fn is_compacted(
    old: Seq<Message>,
    plan: Seq<PlannedSpill>,
    written: Seq<bool>,
    new: Seq<Message>,
) -> bool {
    is_compacted_upto(old, plan, written, new, plan.len() as int)
}

/// The number of the first `n` spills that were written.
pub open spec fn written_count(written: Seq<bool>, n: int) -> nat
    decreases n,
{
    if n <= 0 {
        0
    } else {
        written_count(written, n - 1) + if written[n - 1] {
            1nat
        } else {
            0nat
        }
    }
}

/// The original bytes of the first `n` spills that were written.
pub open spec fn written_original_bytes(plan: Seq<PlannedSpill>, written: Seq<bool>, n: int) -> nat
    decreases n,
{
    if n <= 0 {
        0
    } else {
        written_original_bytes(plan, written, n - 1) + if written[n - 1] {
            plan[n - 1].spilled.original_bytes as nat
        } else {
            0nat
        }
    }
}

/// The bytes of the inline texts of the first `n` spills that were written.
pub open spec fn written_inline_bytes(plan: Seq<PlannedSpill>, written: Seq<bool>, n: int) -> nat
    decreases n,
{
    if n <= 0 {
        0
    } else {
        written_inline_bytes(plan, written, n - 1) + if written[n - 1] {
            encode_utf8(plan[n - 1].spilled.inline_replacement@).len()
        } else {
            0nat
        }
    }
}

proof fn lemma_written_sums_monotone(plan: Seq<PlannedSpill>, written: Seq<bool>, m: int, n: int)
    requires
        0 <= m <= n,
    ensures
        written_original_bytes(plan, written, m) <= written_original_bytes(plan, written, n),
        written_inline_bytes(plan, written, m) <= written_inline_bytes(plan, written, n),
        written_count(written, m) <= written_count(written, n),
        written_count(written, n) <= n,
    decreases n,
{
    if n > 0 {
        if m < n {
            lemma_written_sums_monotone(plan, written, m, n - 1);
        } else {
            lemma_written_sums_monotone(plan, written, n - 1, n - 1);
        }
    }
}

/// Whether every entry of `plan` stands at a tool result of `messages`, in
/// strictly increasing positions.
pub open spec fn plan_fits(messages: Seq<Message>, plan: Seq<PlannedSpill>) -> bool {
    &&& forall|k: int|
        0 <= k < plan.len() ==> {
            &&& #[trigger] plan[k].message_index < messages.len()
            &&& plan[k].block_index < messages[plan[k].message_index as int].content@.len()
            &&& messages[plan[k].message_index as int].content@[plan[k].block_index as int] is ToolResult
        }
    &&& forall|k1: int, k2: int|
        0 <= k1 < k2 < plan.len() ==> position_before(
            #[trigger] plan[k1].message_index as int,
            plan[k1].block_index as int,
            #[trigger] plan[k2].message_index as int,
            plan[k2].block_index as int,
        )
}

/// A spill plan fits the messages it was made for.
pub proof fn lemma_spill_plan_fits(
    session_id: Seq<char>,
    messages: Seq<Message>,
    cfg: ToolResultSpillConfig,
    plan: Seq<PlannedSpill>,
)
    requires
        is_spill_plan(session_id, messages, cfg, plan),
    ensures
        plan_fits(messages, plan),
{
    assert forall|k: int| 0 <= k < plan.len() implies {
        &&& #[trigger] plan[k].message_index < messages.len()
        &&& plan[k].block_index < messages[plan[k].message_index as int].content@.len()
        &&& messages[plan[k].message_index as int].content@[plan[k].block_index as int] is ToolResult
    } by {
        assert(spill_candidate(
            messages,
            cfg,
            plan[k].message_index as int,
            plan[k].block_index as int,
        ));
    }
}

/// Replaces, in `messages`, the text of each planned spill whose artifact
/// was written (`written[k]` for the `k`-th) with its inline text, and sums
/// up those spills.
pub fn apply_planned_spills(
    messages: &mut Vec<Message>,
    plan: &[PlannedSpill],
    written: &[bool],
) -> (stats: SpillStats)
    requires
        written@.len() == plan@.len(),
        plan_fits(old(messages)@, plan@),
        written_original_bytes(plan@, written@, plan@.len() as int) <= usize::MAX,
        written_inline_bytes(plan@, written@, plan@.len() as int) <= usize::MAX,
    ensures
        is_compacted(old(messages)@, plan@, written@, final(messages)@),
        stats.count == written_count(written@, plan@.len() as int),
        stats.original_bytes == written_original_bytes(plan@, written@, plan@.len() as int),
        stats.inline_bytes == written_inline_bytes(plan@, written@, plan@.len() as int),
{
    let ghost old_messages = messages@;
    let mut stats = SpillStats { count: 0, original_bytes: 0, inline_bytes: 0 };
    let mut k: usize = 0;
    while k < plan.len()
        invariant
            k <= plan@.len(),
            written@.len() == plan@.len(),
            plan_fits(old_messages, plan@),
            written_original_bytes(plan@, written@, plan@.len() as int) <= usize::MAX,
            written_inline_bytes(plan@, written@, plan@.len() as int) <= usize::MAX,
            is_compacted_upto(old_messages, plan@, written@, messages@, k as int),
            stats.count == written_count(written@, k as int),
            stats.original_bytes == written_original_bytes(plan@, written@, k as int),
            stats.inline_bytes == written_inline_bytes(plan@, written@, k as int),
        decreases plan.len() - k,
    {
        proof {
            lemma_written_sums_monotone(plan@, written@, k + 1, plan@.len() as int);
        }
        let mi = plan[k].message_index;
        let bi = plan[k].block_index;
        let ghost before = messages@;
        proof {
            assert(plan@[k as int].message_index < old_messages.len());
            assert(plan@[k as int].block_index < old_messages[mi as int].content@.len());
            assert(messages@[mi as int].content@.len() == old_messages[mi as int].content@.len());
        }
        if written[k] {
            proof {
                assert forall|k2: int| 0 <= k2 < k implies !#[trigger] written_at(
                    plan@,
                    written@,
                    k2,
                    mi as int,
                    bi as int,
                ) by {
                    assert(position_before(
                        plan@[k2].message_index as int,
                        plan@[k2].block_index as int,
                        plan@[k as int].message_index as int,
                        plan@[k as int].block_index as int,
                    ));
                }
                assert(before[mi as int].content@[bi as int]@ == old_messages[mi as int].content@[bi as int]@);
            }
            let nb = match &messages[mi].content[bi] {
                ContentBlock::ToolResult { tool_use_id, is_error, .. } => ContentBlock::ToolResult {
                    tool_use_id: tool_use_id.clone(),
                    content: plan[k].spilled.inline_replacement.clone(),
                    is_error: *is_error,
                },
                other => copy_block(other),
            };
            messages[mi].content[bi] = nb;
            let inline = utf8_len(plan[k].spilled.inline_replacement.as_str());
            stats.count = stats.count + 1;
            stats.original_bytes = stats.original_bytes + plan[k].spilled.original_bytes;
            stats.inline_bytes = stats.inline_bytes + inline;
            proof {
                assert forall|k2: int|
                    0 <= k2 < k + 1 && #[trigger] written@[k2] implies messages@[plan@[k2].message_index as int].content@[plan@[k2].block_index as int]@
                    == with_result_content(
                    old_messages[plan@[k2].message_index as int].content@[plan@[k2].block_index as int]@,
                    plan@[k2].spilled.inline_replacement@,
                ) by {
                    if k2 < k {
                        assert(position_before(
                            plan@[k2].message_index as int,
                            plan@[k2].block_index as int,
                            plan@[k as int].message_index as int,
                            plan@[k as int].block_index as int,
                        ));
                    }
                }
                assert forall|i: int, j: int|
                    0 <= i < old_messages.len() && 0 <= j < old_messages[i].content@.len() && !(exists|
                        k2: int,
                    | 0 <= k2 < k + 1 && #[trigger] written_at(
                        plan@,
                        written@,
                        k2,
                        i,
                        j,
                    )) implies #[trigger] messages@[i].content@[j]@ == old_messages[i].content@[j]@ by {
                    assert(!written_at(plan@, written@, k as int, i, j));
                    assert(!(exists|k2: int|
                        0 <= k2 < k && #[trigger] written_at(plan@, written@, k2, i, j)));
                }
            }
        } else {
            proof {
                assert forall|i: int, j: int|
                    0 <= i < old_messages.len() && 0 <= j < old_messages[i].content@.len() && !(exists|
                        k2: int,
                    | 0 <= k2 < k + 1 && #[trigger] written_at(
                        plan@,
                        written@,
                        k2,
                        i,
                        j,
                    )) implies #[trigger] messages@[i].content@[j]@ == old_messages[i].content@[j]@ by {
                    assert(!(exists|k2: int|
                        0 <= k2 < k && #[trigger] written_at(plan@, written@, k2, i, j)));
                }
            }
        }
        k = k + 1;
    }
    stats
}

/// Compaction is idempotent: once the artifact of every planned spill has
/// been written and the plan applied, a new plan over the compacted
/// messages finds nothing to spill.
pub proof fn lemma_compaction_idempotent(
    session_id: Seq<char>,
    old: Seq<Message>,
    cfg: ToolResultSpillConfig,
    plan: Seq<PlannedSpill>,
    written: Seq<bool>,
    new: Seq<Message>,
)
    requires
        is_spill_plan(session_id, old, cfg, plan),
        written.len() == plan.len(),
        forall|k: int| 0 <= k < written.len() ==> #[trigger] written[k],
        is_compacted(old, plan, written, new),
    ensures
        forall|i: int, j: int| !#[trigger] spill_candidate(new, cfg, i, j),
{
    assert forall|i: int, j: int| !#[trigger] spill_candidate(new, cfg, i, j) by {
        if spill_candidate(new, cfg, i, j) {
            assert(new[i].role == old[i].role);
            assert(has_later_assistant(old, i)) by {
                let j2 = choose|j2: int| i < j2 < new.len() && #[trigger] new[j2].role == Role::Assistant;
                assert(new[j2].role == old[j2].role);
            }
            if exists|k: int| 0 <= k < plan.len() && #[trigger] written_at(plan, written, k, i, j) {
                let k = choose|k: int| 0 <= k < plan.len() && #[trigger] written_at(plan, written, k, i, j);
                assert(spill_candidate(old, cfg, i, j));
                let b = old[i].content@[j];
                lemma_spill_replacement_is_spilled(
                    cfg,
                    session_id,
                    result_call_id(b),
                    plan[k].tool_name@,
                    result_content(b),
                    crate::spill::spill_sha256_of(result_content(b)),
                );
                assert(new[i].content@[j]@ == with_result_content(b@, plan[k].spilled.inline_replacement@));
                assert(result_content(new[i].content@[j]) == plan[k].spilled.inline_replacement@);
            } else {
                assert(new[i].content@[j]@ == old[i].content@[j]@);
                assert(result_content(new[i].content@[j]) == result_content(old[i].content@[j]));
                assert(spill_candidate(old, cfg, i, j));
                let k = choose|k: int| 0 <= k < plan.len() && #[trigger] planned_at(plan, k, i, j);
                assert(written_at(plan, written, k, i, j));
            }
        }
    }
}

/// A spill whose artifact was not written keeps its result inline: when no
/// artifact was written, compaction changes no message.
pub proof fn lemma_unwritten_spills_keep_messages(
    old: Seq<Message>,
    plan: Seq<PlannedSpill>,
    written: Seq<bool>,
    new: Seq<Message>,
)
    requires
        written.len() == plan.len(),
        forall|k: int| 0 <= k < written.len() ==> !#[trigger] written[k],
        is_compacted(old, plan, written, new),
    ensures
        crate::message::messages_view(new) == crate::message::messages_view(old),
{
    assert forall|i: int| 0 <= i < old.len() implies #[trigger] new[i]@ == old[i]@ by {
        assert forall|j: int| 0 <= j < old[i].content@.len() implies new[i].content@[j]@
            == old[i].content@[j]@ by {
            assert(!(exists|k: int| 0 <= k < plan.len() && #[trigger] written_at(plan, written, k, i, j)));
        }
        assert(new[i].content@.len() == old[i].content@.len());
        assert(crate::message::blocks_view(new[i].content@) =~= crate::message::blocks_view(old[i].content@));
    }
    assert(crate::message::messages_view(new) =~= crate::message::messages_view(old));
}

/// Compaction leaves alone every message that no assistant message
/// follows, and every block that is not a tool result.
pub proof fn lemma_compaction_keeps_recent(
    session_id: Seq<char>,
    old: Seq<Message>,
    cfg: ToolResultSpillConfig,
    plan: Seq<PlannedSpill>,
    written: Seq<bool>,
    new: Seq<Message>,
)
    requires
        is_spill_plan(session_id, old, cfg, plan),
        written.len() == plan.len(),
        is_compacted(old, plan, written, new),
    ensures
        forall|i: int|
            0 <= i < old.len() && !has_later_assistant(old, i) ==> #[trigger] new[i]@ == old[i]@,
        forall|i: int, j: int|
            0 <= i < old.len() && 0 <= j < old[i].content@.len() && !(old[i].content@[j] is ToolResult)
                ==> #[trigger] new[i].content@[j]@ == old[i].content@[j]@,
{
    assert forall|i: int|
        0 <= i < old.len() && !has_later_assistant(old, i) implies #[trigger] new[i]@ == old[i]@ by {
        assert forall|j: int| 0 <= j < old[i].content@.len() implies new[i].content@[j]@
            == old[i].content@[j]@ by {
            if exists|k: int| 0 <= k < plan.len() && #[trigger] written_at(plan, written, k, i, j) {
                let k = choose|k: int| 0 <= k < plan.len() && #[trigger] written_at(plan, written, k, i, j);
                assert(spill_candidate(old, cfg, plan[k].message_index as int, plan[k].block_index as int));
            }
        }
        assert(new[i].content@.len() == old[i].content@.len());
        assert(crate::message::blocks_view(new[i].content@) =~= crate::message::blocks_view(old[i].content@));
    }
    assert forall|i: int, j: int|
        0 <= i < old.len() && 0 <= j < old[i].content@.len() && !(old[i].content@[j] is ToolResult)
            implies #[trigger] new[i].content@[j]@ == old[i].content@[j]@ by {
        if exists|k: int| 0 <= k < plan.len() && #[trigger] written_at(plan, written, k, i, j) {
            let k = choose|k: int| 0 <= k < plan.len() && #[trigger] written_at(plan, written, k, i, j);
            assert(spill_candidate(old, cfg, plan[k].message_index as int, plan[k].block_index as int));
        }
    }
}

} // verus!
