//! Conversation state: the message surface and the log operations that it is the fold of. The
//! system prompt lives in the configuration, never in the log; compaction begins a fresh log with
//! the checkpoint, so logs stay bounded and old generations remain as archives. `migrate` reads
//! the legacy log, which held the system prompt and was compacted in place.
use crate::text;
use crate::text::{str_eq, to_chars};
use vstd::prelude::*;

verus! {

broadcast use vstd::seq::group_seq_axioms;

/// Estimated cost of one image block, in model tokens. Rough by design: the estimate only drives
/// the compaction threshold.
pub const IMAGE_TOKENS: u64 = 1500;

/// Characters that one model token stands for, as an estimate.
pub const CHARS_PER_TOKEN: u64 = 4;

/// Estimated cost of a message beside its content, in model tokens.
pub const MESSAGE_OVERHEAD_TOKENS: u64 = 8;

/// What stands before the summary in a checkpoint.
pub const SUMMARY_PREAMBLE: &'static str = "This is an automatically generated checkpoint condensing an earlier span of the conversation. Treat it as established background and build on it without restating it. Continue directly from the messages that follow, without acknowledging this checkpoint.";

/// Whose message it is.
#[derive(Clone, Copy, Debug, PartialEq, Eq, Structural)]
pub enum Role {
    System,
    User,
    Assistant,
    Tool,
}

/// A call of a tool that the model asks for.
#[derive(Debug)]
pub struct ToolCall {
    pub id: String,
    pub name: String,
    /// Raw JSON as produced by the model; parsed lazily at dispatch time.
    pub arguments: String,
}

/// What a [`ToolCall`] holds.
pub struct ToolCallView {
    pub id: Seq<char>,
    pub name: Seq<char>,
    pub arguments: Seq<char>,
}

impl View for ToolCall {
    type V = ToolCallView;

    open spec fn view(&self) -> ToolCallView {
        ToolCallView { id: self.id@, name: self.name@, arguments: self.arguments@ }
    }
}

/// What a list of calls holds.
pub open spec fn calls_view(calls: Seq<ToolCall>) -> Seq<ToolCallView> {
    Seq::new(calls.len(), |i: int| calls[i]@)
}

/// A message of the conversation.
#[derive(Debug)]
pub struct Message {
    pub role: Role,
    pub text: String,
    /// Chain-of-thought of an assistant message (preserved thinking). Kept verbatim and replayed
    /// in order; empty when preservation is off.
    pub reasoning: String,
    /// Data URLs attached to a user message (vision input).
    pub images: Vec<String>,
    pub tool_calls: Vec<ToolCall>,
    pub tool_call_id: Option<String>,
}

/// What a [`Message`] holds.
pub struct MessageView {
    pub role: Role,
    pub text: Seq<char>,
    pub reasoning: Seq<char>,
    pub images: Seq<Seq<char>>,
    pub tool_calls: Seq<ToolCallView>,
    pub tool_call_id: Option<Seq<char>>,
}

impl View for Message {
    type V = MessageView;

    open spec fn view(&self) -> MessageView {
        MessageView {
            role: self.role,
            text: self.text@,
            reasoning: self.reasoning@,
            images: text::strs(self.images@),
            tool_calls: calls_view(self.tool_calls@),
            tool_call_id: text::opt_str(self.tool_call_id),
        }
    }
}

/// What a list of messages holds.
pub open spec fn views(msgs: Seq<Message>) -> Seq<MessageView> {
    Seq::new(msgs.len(), |i: int| msgs[i]@)
}

/// A message with nothing but a role and a text.
pub open spec fn plain(role: Role, text: Seq<char>) -> MessageView {
    MessageView {
        role,
        text,
        reasoning: Seq::empty(),
        images: Seq::empty(),
        tool_calls: Seq::empty(),
        tool_call_id: None,
    }
}

/// The result of a tool call.
pub open spec fn result_of(call_id: Seq<char>, text: Seq<char>) -> MessageView {
    MessageView { tool_call_id: Some(call_id), ..plain(Role::Tool, text) }
}

/// Copy a list of strings.
pub fn copy_strings(list: &Vec<String>) -> (r: Vec<String>)
    ensures
        text::strs(r@) == text::strs(list@),
{
    let mut out: Vec<String> = Vec::new();
    let mut i: usize = 0;
    while i < list.len()
        invariant
            i <= list@.len(),
            out@.len() == i,
            forall|k: int| 0 <= k < i ==> (#[trigger] out@[k])@ == list@[k]@,
        decreases list@.len() - i,
    {
        out.push(list[i].clone());
        i += 1;
    }
    proof {
        assert(text::strs(out@) =~= text::strs(list@));
    }
    out
}

impl Clone for ToolCall {
    fn clone(&self) -> (r: Self)
        ensures
            r@ == self@,
    {
        ToolCall { id: self.id.clone(), name: self.name.clone(), arguments: self.arguments.clone() }
    }
}

/// Copy a list of calls.
pub fn copy_calls(list: &Vec<ToolCall>) -> (r: Vec<ToolCall>)
    ensures
        calls_view(r@) == calls_view(list@),
{
    let mut out: Vec<ToolCall> = Vec::new();
    let mut i: usize = 0;
    while i < list.len()
        invariant
            i <= list@.len(),
            out@.len() == i,
            forall|k: int| 0 <= k < i ==> (#[trigger] out@[k])@ == list@[k]@,
        decreases list@.len() - i,
    {
        out.push(list[i].clone());
        i += 1;
    }
    proof {
        assert(calls_view(out@) =~= calls_view(list@));
    }
    out
}

impl Clone for Message {
    fn clone(&self) -> (r: Self)
        ensures
            r@ == self@,
    {
        Message {
            role: self.role,
            text: self.text.clone(),
            reasoning: self.reasoning.clone(),
            images: copy_strings(&self.images),
            tool_calls: copy_calls(&self.tool_calls),
            tool_call_id: match &self.tool_call_id {
                Some(id) => Some(id.clone()),
                None => None,
            },
        }
    }
}

impl Message {
    fn with_role(role: Role, text: &str) -> (r: Self)
        ensures
            r@ == plain(role, text@),
    {
        let r = Message {
            role,
            text: text.to_owned(),
            reasoning: String::new(),
            images: Vec::new(),
            tool_calls: Vec::new(),
            tool_call_id: None,
        };
        proof {
            reveal_strlit("");
            assert(r.reasoning@ =~= Seq::<char>::empty());
            assert(text::strs(r.images@) =~= Seq::<Seq<char>>::empty());
            assert(calls_view(r.tool_calls@) =~= Seq::<ToolCallView>::empty());
        }
        r
    }

    /// The system prompt.
    pub fn system(text: &str) -> (r: Self)
        ensures
            r@ == plain(Role::System, text@),
    {
        Message::with_role(Role::System, text)
    }

    /// What the user says.
    pub fn user(text: &str) -> (r: Self)
        ensures
            r@ == plain(Role::User, text@),
    {
        Message::with_role(Role::User, text)
    }

    /// What the user says and shows.
    pub fn user_with_images(text: &str, images: Vec<String>) -> (r: Self)
        ensures
            r@ == (MessageView { images: text::strs(images@), ..plain(Role::User, text@) }),
    {
        let mut r = Message::with_role(Role::User, text);
        r.images = images;
        r
    }

    /// What the model says, and the calls that it asks for.
    pub fn assistant_with_calls(text: &str, tool_calls: Vec<ToolCall>) -> (r: Self)
        ensures
            r@ == (MessageView { tool_calls: calls_view(tool_calls@), ..plain(Role::Assistant, text@) }),
    {
        let mut r = Message::with_role(Role::Assistant, text);
        r.tool_calls = tool_calls;
        r
    }

    /// The result of a tool call.
    pub fn tool_result(call_id: &str, text: &str) -> (r: Self)
        ensures
            r@ == result_of(call_id@, text@),
    {
        let mut r = Message::with_role(Role::Tool, text);
        r.tool_call_id = Some(call_id.to_owned());
        r
    }

    /// Attach chain-of-thought (builder style); only used when preserve thinking is on, so the
    /// session log stays lean otherwise.
    pub fn with_reasoning(self, reasoning: &str) -> (r: Self)
        ensures
            r@ == (MessageView { reasoning: reasoning@, ..self@ }),
    {
        let mut r = self;
        r.reasoning = reasoning.to_owned();
        r
    }
}

/// Copy the messages from index `from` on.
pub fn copy_messages(msgs: &[Message], from: usize) -> (r: Vec<Message>)
    requires
        from <= msgs@.len(),
    ensures
        views(r@) == views(msgs@).skip(from as int),
{
    let mut out: Vec<Message> = Vec::new();
    let mut i: usize = from;
    while i < msgs.len()
        invariant
            from <= i <= msgs@.len(),
            out@.len() == i - from,
            forall|k: int| 0 <= k < i - from ==> (#[trigger] out@[k])@ == msgs@[from + k]@,
        decreases msgs@.len() - i,
    {
        out.push(msgs[i].clone());
        i += 1;
    }
    proof {
        assert(views(out@) =~= views(msgs@).skip(from as int));
    }
    out
}

// ---------------------------------------------------------------------------------------------
// The log
// ---------------------------------------------------------------------------------------------

/// Durable operations; the surface is their fold.
#[derive(Debug)]
pub enum Op {
    Append { message: Message },
    /// Drop `shadowed` entries right after the system head and put the summary user message in
    /// their place.
    Compact { shadowed: usize, summary: String },
}

/// What an [`Op`] holds.
pub enum OpView {
    Append(MessageView),
    Compact(nat, Seq<char>),
}

impl View for Op {
    type V = OpView;

    open spec fn view(&self) -> OpView {
        match self {
            Op::Append { message } => OpView::Append(message@),
            Op::Compact { shadowed, summary } => OpView::Compact(*shadowed as nat, summary@),
        }
    }
}

/// What a log holds.
pub open spec fn ops_view(ops: Seq<Op>) -> Seq<OpView> {
    Seq::new(ops.len(), |i: int| ops[i]@)
}

/// The checkpoint that stands for a condensed span.
pub open spec fn checkpoint(summary: Seq<char>) -> MessageView {
    plain(
        Role::User,
        SUMMARY_PREAMBLE@ + "\n\n<compacted-summary>\n"@ + summary + "\n</compacted-summary>"@,
    )
}

/// The checkpoint that stands for a condensed span.
pub fn summary_message(summary: &str) -> (r: Message)
    ensures
        r@ == checkpoint(summary@),
{
    let mut text = SUMMARY_PREAMBLE.to_owned();
    text.append("\n\n<compacted-summary>\n");
    text.append(summary);
    text.append("\n</compacted-summary>");
    Message::user(text.as_str())
}

/// The surface after one more operation. Compaction keeps the head, where there is one, and drops
/// at most what is there.
pub open spec fn applied(surface: Seq<MessageView>, op: OpView) -> Seq<MessageView> {
    match op {
        OpView::Append(message) => surface.push(message),
        OpView::Compact(shadowed, summary) => if surface.len() == 0 {
            seq![checkpoint(summary)]
        } else {
            let end = if 1 + shadowed < surface.len() {
                1 + shadowed as int
            } else {
                surface.len() as int
            };
            seq![surface[0], checkpoint(summary)] + surface.skip(end)
        },
    }
}

/// The surface that a log stands for.
pub open spec fn replayed(ops: Seq<OpView>) -> Seq<MessageView>
    decreases ops.len(),
{
    if ops.len() == 0 {
        Seq::empty()
    } else {
        applied(replayed(ops.drop_last()), ops.last())
    }
}

/// Carry out one operation.
pub fn apply_op(surface: &mut Vec<Message>, op: Op)
    ensures
        views(final(surface)@) == applied(views(old(surface)@), op@),
{
    match op {
        Op::Append { message } => {
            surface.push(message);
            proof {
                assert(views(surface@) =~= views(old(surface)@).push(message@));
            }
        },
        Op::Compact { shadowed, summary } => {
            let ghost before = views(surface@);
            let checkpoint_message = summary_message(summary.as_str());
            let n: usize = surface.len();
            if n == 0 {
                surface.push(checkpoint_message);
                proof {
                    assert(views(surface@) =~= applied(before, op@));
                }
                return;
            }
            let end: usize = if shadowed < n - 1 { 1 + shadowed } else { n };
            let mut tail = surface.split_off(end);
            surface.truncate(1);
            surface.push(checkpoint_message);
            surface.append(&mut tail);
            proof {
                assert(views(surface@) =~= applied(before, op@));
            }
        },
    }
}

/// Pure fold of log operations into a surface.
pub fn replay(ops: Vec<Op>) -> (r: Vec<Message>)
    ensures
        views(r@) == replayed(ops_view(ops@)),
{
    let mut ops = ops;
    let ghost all = ops_view(ops@);
    let mut rev: Vec<Op> = Vec::new();
    while ops.len() > 0
        invariant
            ops@.len() + rev@.len() == all.len(),
            ops_view(ops@) == all.take(ops@.len() as int),
            forall|i: int| 0 <= i < rev@.len() ==> (#[trigger] rev@[i])@ == all[all.len() - 1 - i],
        decreases ops@.len(),
    {
        let ghost held = ops@;
        if let Some(op) = ops.pop() {
            proof {
                assert(ops_view(held)[held.len() - 1] == all[held.len() - 1]);
                assert(ops_view(ops@) =~= all.take(ops@.len() as int)) by {
                    assert forall|i: int| 0 <= i < ops@.len() implies ops_view(ops@)[i] == all[i] by {
                        assert(ops_view(held)[i] == all.take(held.len() as int)[i]);
                    }
                }
            }
            rev.push(op);
        }
    }
    let mut surface: Vec<Message> = Vec::new();
    proof {
        assert(views(surface@) =~= replayed(all.take(0)));
    }
    while rev.len() > 0
        invariant
            rev@.len() <= all.len(),
            forall|i: int| 0 <= i < rev@.len() ==> (#[trigger] rev@[i])@ == all[all.len() - 1 - i],
            views(surface@) == replayed(all.take(all.len() - rev@.len())),
        decreases rev@.len(),
    {
        let ghost done = all.len() - rev@.len();
        let ghost last = rev@[rev@.len() - 1];
        if let Some(op) = rev.pop() {
            proof {
                assert(op == last);
                assert(op@ == all[done]);
                assert(all.take(done + 1).drop_last() =~= all.take(done));
                assert(all.take(done + 1).last() == all[done]);
            }
            apply_op(&mut surface, op);
        }
    }
    proof {
        assert(all.take(all.len() as int) =~= all);
    }
    surface
}

/// The log of a surface that holds each message as it was appended.
pub open spec fn appends(surface: Seq<MessageView>) -> Seq<OpView> {
    Seq::new(surface.len(), |i: int| OpView::Append(surface[i]))
}

/// A log of nothing but appended messages stands for those messages: what a fresh log is begun
/// with is what it is read back as.
pub proof fn law_log_roundtrip(surface: Seq<MessageView>)
    ensures
        replayed(appends(surface)) == surface,
    decreases surface.len(),
{
    if surface.len() > 0 {
        law_log_roundtrip(surface.drop_last());
        assert(appends(surface).drop_last() =~= appends(surface.drop_last()));
        assert(surface =~= surface.drop_last().push(surface.last()));
    } else {
        assert(replayed(appends(surface)) =~= surface);
    }
}

// ---------------------------------------------------------------------------------------------
// Interrupted calls
// ---------------------------------------------------------------------------------------------

/// Whether `m` is the result of the call `id`.
pub open spec fn answers_call(m: MessageView, id: Seq<char>) -> bool {
    m.role == Role::Tool && m.tool_call_id == Some(id)
}

/// The result that stands for one that was never recorded.
pub open spec fn interrupted(id: Seq<char>) -> MessageView {
    result_of(id, "Error: tool call was interrupted before a result was recorded."@)
}

/// The results of `calls`: those at the front of `rest` as far as they are there, in the order of
/// the calls, else error results.
pub open spec fn results(calls: Seq<ToolCallView>, rest: Seq<MessageView>) -> Seq<MessageView>
    decreases calls.len(),
{
    if calls.len() == 0 {
        Seq::empty()
    } else if rest.len() > 0 && answers_call(rest[0], calls[0].id) {
        seq![rest[0]] + results(calls.drop_first(), rest.drop_first())
    } else {
        seq![interrupted(calls[0].id)] + results(calls.drop_first(), rest)
    }
}

/// What is left of `rest` behind the results of `calls`.
pub open spec fn behind_results(calls: Seq<ToolCallView>, rest: Seq<MessageView>) -> Seq<MessageView>
    decreases calls.len(),
{
    if calls.len() == 0 {
        rest
    } else if rest.len() > 0 && answers_call(rest[0], calls[0].id) {
        behind_results(calls.drop_first(), rest.drop_first())
    } else {
        behind_results(calls.drop_first(), rest)
    }
}

/// The surface with an error result for each call of the assistant that lacks its result.
pub open spec fn repaired(s: Seq<MessageView>) -> Seq<MessageView>
    decreases s.len(),
    via repaired_decreases
{
    if s.len() == 0 {
        s
    } else {
        let calls = calls_of(s[0]);
        let rest = s.drop_first();
        seq![s[0]] + results(calls, rest) + repaired(behind_results(calls, rest))
    }
}

/// The calls that a message asks for: those of an assistant message.
pub open spec fn calls_of(m: MessageView) -> Seq<ToolCallView> {
    if m.role == Role::Assistant {
        m.tool_calls
    } else {
        Seq::empty()
    }
}

#[via_fn]
proof fn repaired_decreases(s: Seq<MessageView>) {
    if s.len() > 0 {
        lemma_behind_is_short(calls_of(s[0]), s.drop_first());
    }
}

proof fn lemma_behind_is_short(calls: Seq<ToolCallView>, rest: Seq<MessageView>)
    ensures
        behind_results(calls, rest).len() <= rest.len(),
    decreases calls.len(),
{
    if calls.len() > 0 {
        if rest.len() > 0 && answers_call(rest[0], calls[0].id) {
            lemma_behind_is_short(calls.drop_first(), rest.drop_first());
        } else {
            lemma_behind_is_short(calls.drop_first(), rest);
        }
    }
}

/// Whether every call of the assistant has its result, right behind the call and in order.
pub open spec fn answered(s: Seq<MessageView>) -> bool
    decreases s.len(),
{
    s.len() == 0 || {
        let calls = calls_of(s[0]);
        let rest = s.drop_first();
        &&& calls.len() <= rest.len()
        &&& forall|k: int| 0 <= k < calls.len() ==> answers_call(#[trigger] rest[k], calls[k].id)
        &&& answered(rest.skip(calls.len() as int))
    }
}

/// Whether a message is a result that stands for one that was never recorded.
pub open spec fn stands_in(m: MessageView) -> bool {
    exists|id: Seq<char>| m == #[trigger] interrupted(id)
}

/// Whether `whole` is `part` with nothing added but results that stand for ones that were never
/// recorded.
pub open spec fn within(part: Seq<MessageView>, whole: Seq<MessageView>) -> bool
    decreases whole.len(),
{
    if whole.len() == 0 {
        part.len() == 0
    } else if part.len() > 0 && part[0] == whole[0] {
        within(part.drop_first(), whole.drop_first())
    } else {
        stands_in(whole[0]) && within(part, whole.drop_first())
    }
}

proof fn lemma_results_answer(calls: Seq<ToolCallView>, rest: Seq<MessageView>)
    ensures
        results(calls, rest).len() == calls.len(),
        forall|k: int| 0 <= k < calls.len() ==> answers_call(#[trigger] results(calls, rest)[k], calls[k].id),
    decreases calls.len(),
{
    if calls.len() > 0 {
        let tail = if rest.len() > 0 && answers_call(rest[0], calls[0].id) {
            rest.drop_first()
        } else {
            rest
        };
        lemma_results_answer(calls.drop_first(), tail);
        let r = results(calls, rest);
        assert forall|k: int| 0 <= k < calls.len() implies answers_call(#[trigger] r[k], calls[k].id) by {
            if k > 0 {
                assert(r[k] == results(calls.drop_first(), tail)[k - 1]);
                assert(calls.drop_first()[k - 1] == calls[k]);
            }
        }
    }
}

/// A repaired surface lacks no result, whatever was cut off before.
pub proof fn law_repair_answers(s: Seq<MessageView>)
    ensures
        answered(repaired(s)),
    decreases s.len(),
{
    if s.len() > 0 {
        let calls = calls_of(s[0]);
        let rest = s.drop_first();
        let behind = behind_results(calls, rest);
        lemma_results_answer(calls, rest);
        lemma_behind_is_short(calls, rest);
        law_repair_answers(behind);
        let r = repaired(s);
        let after = r.drop_first();
        assert(r[0] == s[0]);
        assert(after =~= results(calls, rest) + repaired(behind));
        assert(after.skip(calls.len() as int) =~= repaired(behind));
        assert forall|k: int| 0 <= k < calls.len() implies answers_call(#[trigger] after[k], calls[k].id) by {
            assert(after[k] == results(calls, rest)[k]);
        }
    }
}

proof fn lemma_answered_results(calls: Seq<ToolCallView>, rest: Seq<MessageView>)
    requires
        calls.len() <= rest.len(),
        forall|k: int| 0 <= k < calls.len() ==> answers_call(#[trigger] rest[k], calls[k].id),
    ensures
        results(calls, rest) == rest.take(calls.len() as int),
        behind_results(calls, rest) == rest.skip(calls.len() as int),
    decreases calls.len(),
{
    if calls.len() == 0 {
        assert(rest.take(0) =~= Seq::<MessageView>::empty());
        assert(rest.skip(0) =~= rest);
    } else {
        assert(answers_call(rest[0], calls[0].id));
        let c = calls.drop_first();
        let r = rest.drop_first();
        assert forall|k: int| 0 <= k < c.len() implies answers_call(#[trigger] r[k], c[k].id) by {
            assert(answers_call(rest[k + 1], calls[k + 1].id));
        }
        lemma_answered_results(c, r);
        assert(seq![rest[0]] + r.take(c.len() as int) =~= rest.take(calls.len() as int));
        assert(r.skip(c.len() as int) =~= rest.skip(calls.len() as int));
    }
}

/// Repair leaves a surface that lacks no result as it is; repairing twice is repairing once.
pub proof fn law_repair_keeps_answered(s: Seq<MessageView>)
    ensures
        answered(s) ==> repaired(s) == s,
        repaired(repaired(s)) == repaired(s),
{
    if answered(s) {
        lemma_answered_is_kept(s);
    }
    law_repair_answers(s);
    lemma_answered_is_kept(repaired(s));
}

proof fn lemma_answered_is_kept(s: Seq<MessageView>)
    requires
        answered(s),
    ensures
        repaired(s) == s,
    decreases s.len(),
{
    if s.len() > 0 {
        let calls = calls_of(s[0]);
        let rest = s.drop_first();
        lemma_answered_results(calls, rest);
        lemma_answered_is_kept(rest.skip(calls.len() as int));
        assert(seq![s[0]] + rest.take(calls.len() as int) + rest.skip(calls.len() as int) =~= s);
    }
}

proof fn lemma_within_results(calls: Seq<ToolCallView>, rest: Seq<MessageView>, tail: Seq<MessageView>)
    requires
        within(behind_results(calls, rest), tail),
    ensures
        within(rest, results(calls, rest) + tail),
    decreases calls.len(),
{
    if calls.len() == 0 {
        assert(results(calls, rest) + tail =~= tail);
    } else if rest.len() > 0 && answers_call(rest[0], calls[0].id) {
        lemma_within_results(calls.drop_first(), rest.drop_first(), tail);
        let whole = results(calls, rest) + tail;
        assert(whole.drop_first() =~= results(calls.drop_first(), rest.drop_first()) + tail);
    } else {
        lemma_within_results(calls.drop_first(), rest, tail);
        let whole = results(calls, rest) + tail;
        assert(whole.drop_first() =~= results(calls.drop_first(), rest) + tail);
        assert(whole[0] == interrupted(calls[0].id));
        if rest.len() > 0 && rest[0] == whole[0] {
            assert(answers_call(whole[0], calls[0].id));
        }
    }
}

/// Repair only adds: every message that was there stays, in its order, and whatever is added is a
/// result that stands for one that was never recorded.
pub proof fn law_repair_keeps_messages(s: Seq<MessageView>)
    ensures
        within(s, repaired(s)),
    decreases s.len(),
{
    if s.len() > 0 {
        let calls = calls_of(s[0]);
        let rest = s.drop_first();
        let behind = behind_results(calls, rest);
        lemma_behind_is_short(calls, rest);
        law_repair_keeps_messages(behind);
        lemma_within_results(calls, rest, repaired(behind));
        assert(repaired(s).drop_first() =~= results(calls, rest) + repaired(behind));
    }
}

/// Whether message `m` is the result of the call `id`.
fn is_answer(m: &Message, id: &str) -> (r: bool)
    ensures
        r == answers_call(m@, id@),
{
    if m.role != Role::Tool {
        return false;
    }
    match &m.tool_call_id {
        Some(call_id) => str_eq(call_id.as_str(), id),
        None => false,
    }
}

/// A crashed turn can leave assistant tool calls without results; providers reject that, so
/// synthesize error results.
pub fn repair_dangling_calls(surface: &mut Vec<Message>)
    ensures
        views(final(surface)@) == repaired(views(old(surface)@)),
{
    let ghost all = views(surface@);
    let mut i: usize = 0;
    proof {
        assert(all.skip(0) =~= all);
        assert(all.take(0) + repaired(all.skip(0)) =~= repaired(all));
    }
    while i < surface.len()
        invariant
            i <= surface@.len(),
            views(surface@).take(i as int) + repaired(views(surface@).skip(i as int)) == repaired(all),
        decreases surface@.len() - i,
    {
        let ghost now = views(surface@);
        let ghost s = now.skip(i as int);
        let calls: Vec<ToolCall> = if surface[i].role == Role::Assistant {
            copy_calls(&surface[i].tool_calls)
        } else {
            Vec::new()
        };
        let ghost cs = calls_view(calls@);
        let mut k: usize = 0;
        let mut j: usize = i + 1;
        proof {
            assert(s[0] == surface@[i as int]@);
            assert(cs =~= calls_of(s[0]));
            assert(cs.skip(0) =~= cs);
            assert(s.drop_first() =~= now.skip(i + 1));
            let rest = now.skip(i + 1);
            assert(now.take(i as int) + (seq![s[0]] + results(cs, rest) + repaired(behind_results(cs, rest)))
                =~= now.take(i + 1) + (results(cs, rest) + repaired(behind_results(cs, rest))));
        }
        let ghost gap = surface@.len() - i;
        while k < calls.len()
            invariant
                k <= calls@.len(),
                cs == calls_view(calls@),
                i < j <= surface@.len(),
                gap > surface@.len() - j,
                views(surface@).take(j as int) + (results(cs.skip(k as int), views(surface@).skip(j as int))
                    + repaired(behind_results(cs.skip(k as int), views(surface@).skip(j as int)))) == repaired(all),
            decreases calls@.len() - k,
        {
            let ghost cur = views(surface@);
            let ghost rest = cur.skip(j as int);
            let ghost left = cs.skip(k as int);
            proof {
                assert(left[0] == calls@[k as int]@);
                assert(left.drop_first() =~= cs.skip(k + 1));
            }
            let found = j < surface.len() && is_answer(&surface[j], calls[k].id.as_str());
            proof {
                if j < surface@.len() {
                    assert(rest[0] == surface@[j as int]@);
                }
                assert(found == (rest.len() > 0 && answers_call(rest[0], left[0].id)));
            }
            if !found {
                let error = Message::tool_result(
                    calls[k].id.as_str(),
                    "Error: tool call was interrupted before a result was recorded.",
                );
                let ghost e = error@;
                surface.insert(j, error);
                proof {
                    let next = views(surface@);
                    assert(next =~= cur.insert(j as int, e));
                    assert(next.skip(j + 1) =~= rest);
                    let more = results(cs.skip(k + 1), rest) + repaired(behind_results(cs.skip(k + 1), rest));
                    assert(results(left, rest) =~= seq![e] + results(cs.skip(k + 1), rest));
                    assert(cur.take(j as int) + (results(left, rest) + repaired(behind_results(left, rest)))
                        =~= next.take(j + 1) + more);
                }
            } else {
                proof {
                    assert(rest.drop_first() =~= cur.skip(j + 1));
                    let after = cur.skip(j + 1);
                    let more = results(cs.skip(k + 1), after) + repaired(behind_results(cs.skip(k + 1), after));
                    assert(results(left, rest) =~= seq![rest[0]] + results(cs.skip(k + 1), after));
                    assert(cur.take(j as int) + (results(left, rest) + repaired(behind_results(left, rest)))
                        =~= cur.take(j + 1) + more);
                }
            }
            let len: usize = surface.len();
            proof {
                assert(j < len);
            }
            j += 1;
            k += 1;
        }
        proof {
            let cur = views(surface@);
            let rest = cur.skip(j as int);
            assert(cs.skip(k as int) =~= Seq::<ToolCallView>::empty());
            assert(results(cs.skip(k as int), rest) + repaired(behind_results(cs.skip(k as int), rest))
                =~= repaired(rest));
        }
        i = j;
    }
    proof {
        let done = views(surface@);
        assert(done.skip(i as int) =~= Seq::<MessageView>::empty());
        assert(done.take(i as int) + repaired(done.skip(i as int)) =~= done);
    }
}

// ---------------------------------------------------------------------------------------------
// Size
// ---------------------------------------------------------------------------------------------

/// Estimated cost of a message, in model tokens.
pub open spec fn tokens(m: MessageView) -> nat {
    (m.text.len() + m.reasoning.len()) / CHARS_PER_TOKEN as nat + MESSAGE_OVERHEAD_TOKENS as nat + m.images.len()
        * IMAGE_TOKENS as nat
}

/// Estimated cost of messages, in model tokens.
pub open spec fn total_tokens(msgs: Seq<MessageView>) -> nat
    decreases msgs.len(),
{
    if msgs.len() == 0 {
        0
    } else {
        tokens(msgs[0]) + total_tokens(msgs.drop_first())
    }
}

/// The number of messages to shadow so that what is left is worth `retain` tokens and no later
/// beginning is, looking from index `b` to the front; at least the last message is left.
pub open spec fn cut(msgs: Seq<MessageView>, retain: nat, b: nat) -> nat
    decreases b,
{
    if b == 0 || (b < msgs.len() && total_tokens(msgs.skip(b as int)) >= retain) {
        b
    } else {
        cut(msgs, retain, (b - 1) as nat)
    }
}

/// The last index up to `b` that does not hold a tool result, or the front.
pub open spec fn off_results(msgs: Seq<MessageView>, b: nat) -> nat
    decreases b,
{
    if b > 0 && msgs[b as int].role == Role::Tool {
        off_results(msgs, (b - 1) as nat)
    } else {
        b
    }
}

/// Number of leading messages that can be shadowed while keeping a tail worth at least `retain`
/// tokens that does not begin with a tool result.
pub open spec fn shadow(msgs: Seq<MessageView>, retain: nat) -> Option<usize> {
    let b = off_results(msgs, cut(msgs, retain, msgs.len()));
    if b > 0 {
        Some(b as usize)
    } else {
        None
    }
}

proof fn lemma_total_tokens_from(msgs: Seq<MessageView>, i: int)
    requires
        0 <= i < msgs.len(),
    ensures
        total_tokens(msgs.skip(i)) == tokens(msgs[i]) + total_tokens(msgs.skip(i + 1)),
{
    assert(msgs.skip(i)[0] == msgs[i]);
    assert(msgs.skip(i).drop_first() =~= msgs.skip(i + 1));
}

proof fn lemma_total_tokens_falls(msgs: Seq<MessageView>, i: int, j: int)
    requires
        0 <= i <= j <= msgs.len(),
    ensures
        total_tokens(msgs.skip(j)) <= total_tokens(msgs.skip(i)),
    decreases j - i,
{
    if i < j {
        lemma_total_tokens_from(msgs, i);
        lemma_total_tokens_falls(msgs, i + 1, j);
    }
}

proof fn lemma_cut(msgs: Seq<MessageView>, retain: nat, b: nat)
    requires
        b <= msgs.len(),
    ensures
        cut(msgs, retain, b) <= b,
        msgs.len() > 0 ==> cut(msgs, retain, b) < msgs.len(),
        cut(msgs, retain, b) > 0 ==> total_tokens(msgs.skip(cut(msgs, retain, b) as int)) >= retain,
        forall|c: int| cut(msgs, retain, b) < c <= b && c < msgs.len() ==> total_tokens(#[trigger] msgs.skip(c)) < retain,
    decreases b,
{
    if b == 0 || (b < msgs.len() && total_tokens(msgs.skip(b as int)) >= retain) {
    } else {
        lemma_cut(msgs, retain, (b - 1) as nat);
    }
}

proof fn lemma_off_results(msgs: Seq<MessageView>, b: nat)
    ensures
        off_results(msgs, b) <= b,
        off_results(msgs, b) > 0 ==> msgs[off_results(msgs, b) as int].role != Role::Tool,
        forall|c: int| off_results(msgs, b) < c <= b ==> (#[trigger] msgs[c]).role == Role::Tool,
    decreases b,
{
    if b > 0 && msgs[b as int].role == Role::Tool {
        lemma_off_results(msgs, (b - 1) as nat);
    }
}

/// What is shadowed leaves a tail that is worth at least `retain` tokens, is not empty and does
/// not begin with a tool result.
pub proof fn law_shadow_retains(msgs: Seq<MessageView>, retain: nat, n: usize)
    requires
        msgs.len() <= usize::MAX,
        shadow(msgs, retain) == Some(n),
    ensures
        0 < n < msgs.len(),
        total_tokens(msgs.skip(n as int)) >= retain,
        msgs[n as int].role != Role::Tool,
{
    let c = cut(msgs, retain, msgs.len());
    lemma_cut(msgs, retain, msgs.len());
    lemma_off_results(msgs, c);
    lemma_total_tokens_falls(msgs, n as int, c as int);
}

/// No more could be shadowed: wherever a tail is worth enough and does not begin with a tool
/// result, what is shadowed reaches at least to that tail.
pub proof fn law_shadow_is_greatest(msgs: Seq<MessageView>, retain: nat, c: int)
    requires
        0 < c < msgs.len() <= usize::MAX,
        total_tokens(msgs.skip(c)) >= retain,
        msgs[c].role != Role::Tool,
    ensures
        shadow(msgs, retain) is Some,
        c <= shadow(msgs, retain)->0,
{
    let b = cut(msgs, retain, msgs.len());
    lemma_cut(msgs, retain, msgs.len());
    lemma_off_results(msgs, b);
    assert(c <= b);
    assert(c <= off_results(msgs, b));
}

/// Where no result is lacking, none is lacking before or behind a message that is no result.
pub proof fn lemma_answered_tail(s: Seq<MessageView>, n: int)
    requires
        answered(s),
        0 <= n <= s.len(),
        n < s.len() ==> s[n].role != Role::Tool,
    ensures
        answered(s.skip(n)),
        answered(s.take(n)),
    decreases s.len(),
{
    if n == 0 {
        assert(s.skip(0) =~= s);
        assert(s.take(0) =~= Seq::<MessageView>::empty());
    } else {
        let calls = calls_of(s[0]);
        let rest = s.drop_first();
        let used = 1 + calls.len() as int;
        if n < used {
            assert(answers_call(rest[n - 1], calls[n - 1].id));
            assert(false);
        }
        let after = rest.skip(calls.len() as int);
        assert(after =~= s.skip(used));
        assert(n < s.len() ==> after[n - used] == s[n]);
        lemma_answered_tail(after, n - used);
        assert(after.skip(n - used) =~= s.skip(n));
        let head = s.take(n);
        assert(head[0] == s[0]);
        assert(head.drop_first().skip(calls.len() as int) =~= after.take(n - used));
        assert forall|k: int| 0 <= k < calls.len() implies answers_call(
            #[trigger] head.drop_first()[k],
            calls[k].id,
        ) by {
            assert(head.drop_first()[k] == rest[k]);
        }
    }
}

/// Shadowing never parts a call from its result: where no result was lacking, none is lacking in
/// what is shadowed nor in the checkpoint with the tail that is kept.
pub proof fn law_shadow_keeps_pairs(msgs: Seq<MessageView>, retain: nat, n: usize, summary: Seq<char>)
    requires
        msgs.len() <= usize::MAX,
        answered(msgs),
        shadow(msgs, retain) == Some(n),
    ensures
        answered(msgs.take(n as int)),
        answered(seq![checkpoint(summary)] + msgs.skip(n as int)),
{
    law_shadow_retains(msgs, retain, n);
    lemma_answered_tail(msgs, n as int);
    let kept = seq![checkpoint(summary)] + msgs.skip(n as int);
    assert(kept.drop_first() =~= msgs.skip(n as int));
    assert(kept.drop_first().skip(0) =~= msgs.skip(n as int));
}

/// A number, or the largest one that is told apart.
pub open spec fn capped(n: nat) -> u128 {
    if n <= u128::MAX {
        n as u128
    } else {
        u128::MAX
    }
}

pub(crate) fn add_capped(a: u128, b: u128) -> (r: u128)
    ensures
        r == capped((a + b) as nat),
{
    if a > u128::MAX - b {
        u128::MAX
    } else {
        a + b
    }
}

/// Estimated cost of a message. No message costs as much as the largest number that is told apart.
pub(crate) fn message_cost(m: &Message) -> (r: u128)
    ensures
        r == tokens(m@),
        r < u128::MAX,
{
    let text = to_chars(m.text.as_str());
    let reasoning = to_chars(m.reasoning.as_str());
    let chars: u128 = text.len() as u128 + reasoning.len() as u128;
    chars / (CHARS_PER_TOKEN as u128) + MESSAGE_OVERHEAD_TOKENS as u128 + (m.images.len() as u128) * (
    IMAGE_TOKENS as u128)
}

/// Estimated cost of the messages from index `from` up to `to`, or the largest one that is told
/// apart.
pub(crate) fn span_cost(msgs: &[Message], from: usize, to: usize) -> (r: u128)
    requires
        from <= to <= msgs@.len(),
    ensures
        r == capped(total_tokens(views(msgs@).subrange(from as int, to as int))),
{
    let mut i: usize = to;
    let mut sum: u128 = 0;
    let ghost part = views(msgs@).subrange(from as int, to as int);
    proof {
        assert(part.skip(part.len() as int) =~= Seq::<MessageView>::empty());
    }
    while i > from
        invariant
            from <= i <= to <= msgs@.len(),
            part == views(msgs@).subrange(from as int, to as int),
            sum == capped(total_tokens(part.skip(i - from))),
        decreases i,
    {
        i -= 1;
        proof {
            lemma_total_tokens_from(part, i - from);
        }
        sum = add_capped(sum, message_cost(&msgs[i]));
    }
    proof {
        assert(part.skip(0) =~= part);
    }
    sum
}

/// Estimated cost of a message, in model tokens.
pub fn message_tokens(m: &Message) -> (r: u64)
    requires
        tokens(m@) <= u64::MAX,
    ensures
        r == tokens(m@),
{
    message_cost(m) as u64
}

/// Number of leading messages that can be shadowed while keeping a tail worth at least
/// `retain_tokens`. Never splits an assistant-tool_call / tool-result pair. `None` when there is
/// nothing meaningful to compact.
pub fn shadow_count(msgs: &[Message], retain_tokens: u64) -> (r: Option<usize>)
    ensures
        r == shadow(views(msgs@), retain_tokens as nat),
{
    let ghost all = views(msgs@);
    let len: usize = msgs.len();
    let mut boundary: usize = len;
    let mut worth: u128 = 0;
    proof {
        assert(all.skip(len as int) =~= Seq::<MessageView>::empty());
    }
    while boundary > 0 && (boundary == len || worth < retain_tokens as u128)
        invariant
            boundary <= len,
            len == msgs@.len(),
            all == views(msgs@),
            worth == capped(total_tokens(all.skip(boundary as int))),
            cut(all, retain_tokens as nat, len as nat) == cut(all, retain_tokens as nat, boundary as nat),
        decreases boundary,
    {
        boundary -= 1;
        proof {
            lemma_total_tokens_from(all, boundary as int);
        }
        worth = add_capped(worth, message_cost(&msgs[boundary]));
    }
    proof {
        lemma_cut(all, retain_tokens as nat, len as nat);
        assert(cut(all, retain_tokens as nat, len as nat) == boundary);
    }
    let ghost first = boundary as nat;
    while boundary > 0 && msgs[boundary].role == Role::Tool
        invariant
            boundary <= first,
            boundary <= len,
            len == msgs@.len(),
            boundary > 0 ==> boundary < len,
            all == views(msgs@),
            off_results(all, first) == off_results(all, boundary as nat),
        decreases boundary,
    {
        boundary -= 1;
    }
    if boundary > 0 {
        Some(boundary)
    } else {
        None
    }
}

// ---------------------------------------------------------------------------------------------
// The session
// ---------------------------------------------------------------------------------------------

/// The conversation: a head that is rebuilt with every generation, and the surface that its log
/// stands for. One log per compaction generation holds nothing but appended messages; the system
/// prompt is never among them, so a restart applies a new prompt at once.
pub struct Session {
    surface: Vec<Message>,
    head: Option<Message>,
}

/// What a [`Session`] holds.
pub struct SessionView {
    pub surface: Seq<MessageView>,
    pub head: Option<MessageView>,
}

impl View for Session {
    type V = SessionView;

    closed spec fn view(&self) -> SessionView {
        SessionView {
            surface: views(self.surface@),
            head: match self.head {
                Some(m) => Some(m@),
                None => None,
            },
        }
    }
}

/// The messages behind the system prompts at the front.
pub open spec fn without_prompt(s: Seq<MessageView>) -> Seq<MessageView>
    decreases s.len(),
{
    if s.len() > 0 && s[0].role == Role::System {
        without_prompt(s.drop_first())
    } else {
        s
    }
}

/// The surface that a log is read as.
pub open spec fn surface_of_log(ops: Seq<OpView>) -> Seq<MessageView> {
    repaired(replayed(ops))
}

/// The surface that a legacy log is read as. It held the system prompt at its head.
pub open spec fn surface_of_legacy(ops: Seq<OpView>) -> Seq<MessageView> {
    repaired(without_prompt(replayed(ops)))
}

impl Session {
    /// The conversation so far, out of the current log, where there is one, else out of a legacy
    /// log, where there is one. Also says whether the conversation stands in a legacy log only and
    /// has to be carried into a fresh one.
    pub fn load(current: Option<Vec<Op>>, legacy: Option<Vec<Op>>) -> (r: (Self, bool))
        ensures
            r.0@.head is None,
            r.0@.surface == (if current is Some {
                surface_of_log(ops_view(current->0@))
            } else if legacy is Some {
                surface_of_legacy(ops_view(legacy->0@))
            } else {
                Seq::empty()
            }),
            r.1 == (current is None && legacy is Some),
    {
        match current {
            Some(ops) => {
                let mut surface = replay(ops);
                repair_dangling_calls(&mut surface);
                (Session { surface, head: None }, false)
            },
            None => match legacy {
                Some(ops) => (Session::migrate(ops), true),
                None => {
                    let s = Session { surface: Vec::new(), head: None };
                    proof {
                        assert(s@.surface =~= Seq::<MessageView>::empty());
                    }
                    (s, false)
                },
            },
        }
    }

    /// The conversation of a legacy log (system prompt stored at the head, `Compact` operations
    /// shadowing a span after it). The stored prompt is dropped.
    pub fn migrate(legacy: Vec<Op>) -> (r: Self)
        ensures
            r@.surface == surface_of_legacy(ops_view(legacy@)),
            r@.head is None,
    {
        let mut surface = replay(legacy);
        let ghost all = views(surface@);
        while surface.len() > 0 && surface[0].role == Role::System
            invariant
                without_prompt(all) == without_prompt(views(surface@)),
            decreases surface@.len(),
        {
            let ghost before = views(surface@);
            proof {
                assert(before[0] == surface@[0]@);
            }
            let _ = surface.remove(0);
            proof {
                assert(views(surface@) =~= before.drop_first());
            }
        }
        proof {
            assert(surface@.len() > 0 ==> views(surface@)[0] == surface@[0]@);
            assert(without_prompt(views(surface@)) == views(surface@));
        }
        repair_dangling_calls(&mut surface);
        Session { surface, head: None }
    }

    /// The messages of the conversation.
    pub fn surface(&self) -> (r: &[Message])
        ensures
            views(r@) == self@.surface,
    {
        self.surface.as_slice()
    }

    /// What stands before the surface.
    pub fn head(&self) -> (r: Option<&Message>)
        ensures
            match r {
                Some(m) => self@.head == Some(m@),
                None => self@.head is None,
            },
    {
        match &self.head {
            Some(m) => Some(m),
            None => None,
        }
    }

    /// Put `head` before the surface, in place of what stood there.
    pub fn set_head(&mut self, head: Message)
        ensures
            final(self)@ == (SessionView { head: Some(head@), ..old(self)@ }),
    {
        self.head = Some(head);
    }

    /// Estimated tokens of `surface[from..]`. Combined with the provider's real `prompt_tokens` for
    /// the prefix before `from`, this tracks the context size: exact where it matters (the stable
    /// prefix), heuristic only for the short fresh tail.
    pub fn tail_tokens(&self, from: usize) -> (r: u64)
        requires
            from <= self@.surface.len() ==> total_tokens(self@.surface.skip(from as int)) <= u64::MAX,
        ensures
            r == (if from <= self@.surface.len() {
                total_tokens(self@.surface.skip(from as int))
            } else {
                0
            }),
    {
        self.tail_cost(from) as u64
    }

    /// Estimated tokens of `surface[from..]`, or the largest number that is told apart.
    pub(crate) fn tail_cost(&self, from: usize) -> (r: u128)
        ensures
            r == (if from <= self@.surface.len() {
                capped(total_tokens(self@.surface.skip(from as int)))
            } else {
                0
            }),
    {
        let len: usize = self.surface.len();
        if from > len {
            return 0;
        }
        proof {
            assert(self@.surface.subrange(from as int, len as int) =~= self@.surface.skip(from as int));
        }
        span_cost(self.surface.as_slice(), from, len)
    }

    /// Add a message at the end.
    pub fn append(&mut self, message: Message)
        ensures
            final(self)@ == (SessionView { surface: old(self)@.surface.push(message@), ..old(self)@ }),
    {
        self.surface.push(message);
        proof {
            assert(self@.surface =~= old(self)@.surface.push(message@));
        }
    }

    /// Replace the shadowed prefix with the checkpoint: the surface becomes
    /// `[checkpoint, kept tail…]`, which is what the log of the next generation begins with.
    pub fn compact(&mut self, shadowed: usize, summary: &str)
        requires
            shadowed <= old(self)@.surface.len(),
        ensures
            final(self)@ == (SessionView {
                surface: seq![checkpoint(summary@)] + old(self)@.surface.skip(shadowed as int),
                ..old(self)@
            }),
    {
        let mut tail = self.surface.split_off(shadowed);
        let mut carried: Vec<Message> = Vec::new();
        carried.push(summary_message(summary));
        carried.append(&mut tail);
        self.surface = carried;
        proof {
            assert(self@.surface =~= seq![checkpoint(summary@)] + old(self)@.surface.skip(shadowed as int));
        }
    }

    /// What a fresh log of the conversation begins with: each message as an operation.
    pub fn carried(&self) -> (r: Vec<Op>)
        ensures
            ops_view(r@) == appends(self@.surface),
    {
        let mut ops: Vec<Op> = Vec::new();
        let mut i: usize = 0;
        while i < self.surface.len()
            invariant
                i <= self.surface@.len(),
                ops@.len() == i,
                forall|k: int| 0 <= k < i ==> (#[trigger] ops@[k])@ == OpView::Append(self.surface@[k]@),
            decreases self.surface@.len() - i,
        {
            ops.push(Op::Append { message: self.surface[i].clone() });
            i += 1;
        }
        proof {
            assert(ops_view(ops@) =~= appends(self@.surface));
        }
        ops
    }
}

/// What is written is what is read back: a conversation carried into a fresh log, with messages
/// appended to both since, is loaded from that log as it was, as long as it lacks no tool result.
pub proof fn law_load_gives_back(carried: Seq<MessageView>, since: Seq<MessageView>)
    requires
        answered(carried + since),
    ensures
        surface_of_log(appends(carried) + appends(since)) == carried + since,
{
    assert(appends(carried) + appends(since) =~= appends(carried + since));
    law_log_roundtrip(carried + since);
    law_repair_keeps_answered(carried + since);
}

/// A legacy log is read without its stored prompt: the surface does not begin with one.
pub proof fn law_legacy_prompt_dropped(ops: Seq<OpView>)
    ensures
        surface_of_legacy(ops).len() > 0 ==> surface_of_legacy(ops)[0].role != Role::System,
{
    let s = without_prompt(replayed(ops));
    lemma_without_prompt(replayed(ops));
    if s.len() > 0 {
        assert(repaired(s)[0] == s[0]);
    }
}

proof fn lemma_without_prompt(s: Seq<MessageView>)
    ensures
        without_prompt(s).len() > 0 ==> without_prompt(s)[0].role != Role::System,
    decreases s.len(),
{
    if s.len() > 0 && s[0].role == Role::System {
        lemma_without_prompt(s.drop_first());
    }
}

// ---------------------------------------------------------------------------------------------
// What messages hold and cost
// ---------------------------------------------------------------------------------------------

/// A message costs a token for every four characters of its text and chain-of-thought, eight more,
/// and fifteen hundred for each image; messages cost what each of them does.
pub proof fn law_tokens_are_estimated(m: MessageView, a: Seq<MessageView>, b: Seq<MessageView>)
    ensures
        tokens(m) == (m.text.len() + m.reasoning.len()) / 4 + 8 + m.images.len() * 1500,
        total_tokens(a + b) == total_tokens(a) + total_tokens(b),
        total_tokens(seq![m]) == tokens(m),
        total_tokens(Seq::empty()) == 0,
    decreases a.len(),
{
    if a.len() == 0 {
        assert(a + b =~= b);
    } else {
        law_tokens_are_estimated(m, a.drop_first(), b);
        assert((a + b).drop_first() =~= a.drop_first() + b);
    }
    assert(seq![m].drop_first() =~= Seq::<MessageView>::empty());
    assert(total_tokens(Seq::<MessageView>::empty()) == 0);
}

/// A logged compaction keeps the first message, puts the summary, verbatim, into one of the user's
/// behind it, and keeps what was not shadowed as it was; one that shadows more than there is leaves
/// nothing else.
pub proof fn law_compactions_are_replayed(ops: Seq<OpView>, shadowed: nat, summary: Seq<char>, i: int)
    ensures
        ({
            let was = replayed(ops);
            let now = replayed(ops.push(OpView::Compact(shadowed, summary)));
            let text = SUMMARY_PREAMBLE@ + "\n\n<compacted-summary>\n"@ + summary + "\n</compacted-summary>"@;
            &&& was.len() == 0 ==> now.len() == 1 && now[0].role == Role::User && now[0].text == text
            &&& was.len() > 0 ==> now.len() >= 2 && now[0] == was[0] && now[1].role == Role::User && now[1].text
                == text && now[1].images.len() == 0 && now[1].tool_calls.len() == 0 && now[1].tool_call_id is None
            &&& was.len() > 0 && shadowed + 1 < was.len() ==> now.len() == was.len() - shadowed + 1
            &&& was.len() > 0 && shadowed + 1 >= was.len() ==> now.len() == 2
            &&& 2 <= i < now.len() && was.len() > 0 ==> now[i] == was[i - 1 + shadowed]
        }),
{
    let op = OpView::Compact(shadowed, summary);
    assert(ops.push(op).drop_last() =~= ops);
}

/// A message of the log is replayed behind those before it, as it was written.
pub proof fn law_messages_are_replayed(ops: Seq<OpView>, m: MessageView)
    ensures
        replayed(ops.push(OpView::Append(m))) == replayed(ops).push(m),
        replayed(Seq::empty()).len() == 0,
{
    assert(ops.push(OpView::Append(m)).drop_last() =~= ops);
}

proof fn lemma_results_then_stand_ins(calls: Seq<ToolCallView>, rs: Seq<MessageView>, b: Seq<MessageView>)
    requires
        rs.len() <= calls.len(),
        forall|k: int| 0 <= k < rs.len() ==> answers_call(#[trigger] rs[k], calls[k].id),
        b.len() == 0 || b[0].role != Role::Tool,
    ensures
        results(calls, rs + b) == rs + Seq::new(
            (calls.len() - rs.len()) as nat,
            |k: int| interrupted(calls[rs.len() + k].id),
        ),
        behind_results(calls, rs + b) == b,
    decreases calls.len(),
{
    if calls.len() == 0 {
        assert(rs + b =~= b);
    } else {
        let rest = calls.drop_first();
        let all = rs + b;
        if rs.len() > 0 {
            let later = rs.drop_first();
            assert(answers_call(rs[0], calls[0].id));
            assert(all.drop_first() =~= later + b);
            assert(all[0] == rs[0]);
            assert forall|k: int| 0 <= k < later.len() implies answers_call(#[trigger] later[k], rest[k].id) by {
                assert(answers_call(rs[k + 1], calls[k + 1].id));
            }
            lemma_results_then_stand_ins(rest, later, b);
            assert(results(calls, all) =~= rs + Seq::new(
                (calls.len() - rs.len()) as nat,
                |k: int| interrupted(calls[rs.len() + k].id),
            ));
        } else {
            assert(all =~= b);
            lemma_results_then_stand_ins(rest, rs, b);
            assert(results(calls, all) =~= rs + Seq::new(
                (calls.len() - rs.len()) as nat,
                |k: int| interrupted(calls[rs.len() + k].id),
            ));
        }
    }
}

/// Calls that were interrupted are answered, right behind the results that there are and in the order
/// of the calls, with a result that says so; nothing else is added, and what comes behind is repaired
/// likewise.
pub proof fn law_interrupted_calls_are_answered(m: MessageView, rs: Seq<MessageView>, b: Seq<MessageView>)
    requires
        m.role == Role::Assistant,
        rs.len() <= m.tool_calls.len(),
        forall|k: int|
            0 <= k < rs.len() ==> (#[trigger] rs[k]).role == Role::Tool && rs[k].tool_call_id == Some(
                m.tool_calls[k].id,
            ),
        b.len() == 0 || b[0].role != Role::Tool,
    ensures
        repaired(seq![m] + rs + b) == seq![m] + rs + Seq::new(
            (m.tool_calls.len() - rs.len()) as nat,
            |k: int|
                MessageView {
                    role: Role::Tool,
                    text: "Error: tool call was interrupted before a result was recorded."@,
                    reasoning: Seq::empty(),
                    images: Seq::empty(),
                    tool_calls: Seq::empty(),
                    tool_call_id: Some(m.tool_calls[rs.len() + k].id),
                },
        ) + repaired(b),
{
    let all = seq![m] + rs + b;
    let calls = m.tool_calls;
    let missing = Seq::new((calls.len() - rs.len()) as nat, |k: int| interrupted(calls[rs.len() + k].id));
    assert forall|k: int| 0 <= k < rs.len() implies answers_call(#[trigger] rs[k], calls[k].id) by {}
    lemma_results_then_stand_ins(calls, rs, b);
    assert(all[0] == m);
    assert(all.drop_first() =~= rs + b);
    assert(missing =~= Seq::new(
        (m.tool_calls.len() - rs.len()) as nat,
        |k: int|
            MessageView {
                role: Role::Tool,
                text: "Error: tool call was interrupted before a result was recorded."@,
                reasoning: Seq::empty(),
                images: Seq::empty(),
                tool_calls: Seq::empty(),
                tool_call_id: Some(m.tool_calls[rs.len() + k].id),
            },
    ));
    assert(repaired(all) =~= seq![m] + rs + missing + repaired(b));
}

/// A message that calls nothing is left as it is, and so are those behind it as far as they can be.
pub proof fn law_other_messages_are_kept(m: MessageView, b: Seq<MessageView>)
    requires
        m.role != Role::Assistant || m.tool_calls.len() == 0,
    ensures
        repaired(seq![m] + b) == seq![m] + repaired(b),
        repaired(Seq::empty()).len() == 0,
{
    let all = seq![m] + b;
    assert(all[0] == m);
    assert(all.drop_first() =~= b);
    assert(calls_of(m) =~= Seq::empty());
    assert(results(calls_of(m), b) =~= Seq::empty());
    assert(repaired(all) =~= seq![m] + repaired(b));
}

/// What a log of an older kind begins with as the system's is left out, and nothing else.
pub proof fn law_prompts_are_left_out(a: Seq<MessageView>, b: Seq<MessageView>)
    requires
        forall|i: int| 0 <= i < a.len() ==> (#[trigger] a[i]).role == Role::System,
        b.len() == 0 || b[0].role != Role::System,
    ensures
        without_prompt(a + b) == b,
    decreases a.len(),
{
    if a.len() == 0 {
        assert(a + b =~= b);
    } else {
        let rest = a.drop_first();
        assert((a + b).drop_first() =~= rest + b);
        assert((a + b)[0] == a[0]);
        assert forall|i: int| 0 <= i < rest.len() implies (#[trigger] rest[i]).role == Role::System by {
            assert(a[i + 1].role == Role::System);
        }
        law_prompts_are_left_out(rest, b);
    }
}

} // verus!
