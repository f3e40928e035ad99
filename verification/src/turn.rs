//! The course of a turn (model <-> tools) and of compaction, as a state machine: it says what is to
//! be done outside — ask the model, run a tool, write to the log — and takes note of what came back.
use crate::llm;
use crate::llm::{ChatError, ChatErrorView, Reply, ReplyView};
use crate::session;
use crate::session::{
    add_capped, copy_calls, copy_messages, message_cost, shadow_count, span_cost, summary_message, Message,
    MessageView, Op, OpView, Role, Session, SessionView, ToolCall, ToolCallView,
};
use crate::text;
use crate::text::trimmed;
use vstd::prelude::*;

verus! {

broadcast use vstd::seq::group_seq_axioms;

/// What the summarizer is told.
pub const COMPACTION_INSTRUCTION: &'static str = "Compaction/summarization triggered: you must condense the conversation above into a structured checkpoint that lets you resume your work/the story with no essential context.\n\nYou still should have all the tools available so that you can record important information into your working directory. At the end of your turn, you must provide a single message that entails all the information that needs to be passed down to the new agent (you with no memory besides the system prompt), so that it can pick up from where you left. New agent will be provided with the same system prompt, the same environment (e. g. filesystem) and the message, all the other information will get lost.\n\nDon't send any Telegram messages unless necessary.\nBe as detailed as possible, proactively link files that might be needed for the new agent.";

/// What stands before the channel list in the session head.
pub const CHANNELS_PREAMBLE: &'static str = "[Telegram channels] Address send_message/edit_message by these exact names. Every channel's history is appended to workspace/chat/<name>.log — grep it for context.\n\n";

/// Tokens that are kept at most when the context has overflowed.
pub const FORCED_RETAIN_TOKENS: u64 = 2_000;

/// What comes after a message is written to the log.
#[derive(Debug)]
pub enum After {
    /// Ask the model.
    Ask,
    /// The turn is over.
    EndOfTurn,
    /// Run the tools that the message calls.
    Tools(Vec<ToolCall>),
    /// Run the tool with that index, or ask the model where all have run.
    NextTool(Vec<ToolCall>, usize),
}

/// What an [`After`] holds.
pub enum AfterView {
    Ask,
    EndOfTurn,
    Tools(Seq<ToolCallView>),
    NextTool(Seq<ToolCallView>, nat),
}

impl View for After {
    type V = AfterView;

    open spec fn view(&self) -> AfterView {
        match self {
            After::Ask => AfterView::Ask,
            After::EndOfTurn => AfterView::EndOfTurn,
            After::Tools(calls) => AfterView::Tools(session::calls_view(calls@)),
            After::NextTool(calls, n) => AfterView::NextTool(session::calls_view(calls@), *n as nat),
        }
    }
}

/// A compaction under way: how many messages it shadows, and whether an overflow forced it.
#[derive(Debug, Clone, Copy)]
pub struct Compaction {
    pub shadowed: usize,
    pub force: bool,
}

/// What is being waited for.
#[derive(Debug)]
pub enum Phase {
    /// Nothing: no turn is under way.
    Idle,
    /// That the message is written to the log.
    Saving { message: Message, after: After },
    /// A reply of the model; `retry` where the context has overflowed before.
    Asking { retry: bool },
    /// The result of the call with that index.
    Tool { calls: Vec<ToolCall>, next: usize },
    /// A reply of the summarizer, which works on a scratch copy of the conversation.
    Summarizing { plan: Compaction, scratch: Vec<Message> },
    /// The result of the summarizer's call with that index.
    SummaryTool { plan: Compaction, scratch: Vec<Message>, calls: Vec<ToolCall>, next: usize },
    /// That a fresh log is begun with the checkpoint.
    Rotating { plan: Compaction, summary: String },
}

/// What a [`Phase`] holds.
pub enum PhaseView {
    Idle,
    Saving(MessageView, AfterView),
    Asking(bool),
    Tool(Seq<ToolCallView>, nat),
    Summarizing(Compaction, Seq<MessageView>),
    SummaryTool(Compaction, Seq<MessageView>, Seq<ToolCallView>, nat),
    Rotating(Compaction, Seq<char>),
}

impl View for Phase {
    type V = PhaseView;

    open spec fn view(&self) -> PhaseView {
        match self {
            Phase::Idle => PhaseView::Idle,
            Phase::Saving { message, after } => PhaseView::Saving(message@, after@),
            Phase::Asking { retry } => PhaseView::Asking(*retry),
            Phase::Tool { calls, next } => PhaseView::Tool(session::calls_view(calls@), *next as nat),
            Phase::Summarizing { plan, scratch } => PhaseView::Summarizing(*plan, session::views(scratch@)),
            Phase::SummaryTool { plan, scratch, calls, next } => PhaseView::SummaryTool(
                *plan,
                session::views(scratch@),
                session::calls_view(calls@),
                *next as nat,
            ),
            Phase::Rotating { plan, summary } => PhaseView::Rotating(*plan, summary@),
        }
    }
}

/// What is to be done outside.
#[derive(Debug)]
pub enum Action {
    /// Ask the model for a reply to these messages.
    Ask(Vec<Message>),
    /// Run a tool.
    Run(ToolCall),
    /// Append a message to the log.
    Append(Op),
    /// Begin a fresh log with these messages.
    Rotate(Vec<Op>),
    /// Nothing: the turn is over.
    Done,
    /// Nothing: the turn has failed.
    Failed(String),
}

/// What an [`Action`] holds.
pub enum ActionView {
    Ask(Seq<MessageView>),
    Run(ToolCallView),
    Append(OpView),
    Rotate(Seq<OpView>),
    Done,
    Failed(Seq<char>),
}

impl View for Action {
    type V = ActionView;

    open spec fn view(&self) -> ActionView {
        match self {
            Action::Ask(msgs) => ActionView::Ask(session::views(msgs@)),
            Action::Run(call) => ActionView::Run(call@),
            Action::Append(op) => ActionView::Append(op@),
            Action::Rotate(ops) => ActionView::Rotate(session::ops_view(ops@)),
            Action::Done => ActionView::Done,
            Action::Failed(e) => ActionView::Failed(e@),
        }
    }
}

/// The settings that a turn goes by.
#[derive(Debug)]
pub struct Settings {
    /// Never stored in the session, so a restart applies a new prompt immediately.
    pub system_prompt: String,
    pub preserve_thinking: bool,
    pub compaction_threshold_tokens: u64,
    pub compaction_retain_tokens: u64,
}

/// The conversation and how far the turn has got.
pub struct Turn {
    settings: Settings,
    session: Session,
    /// Compaction metric anchor: the provider's real `prompt_tokens` for the surface as of length
    /// `usize`; the metric adds an estimate of the tail appended since. `None` before the first
    /// response (and right after a compaction) falls back to the pure estimate.
    prompt_anchor: Option<(usize, u64)>,
    phase: Phase,
}

/// What a [`Turn`] holds.
pub struct TurnView {
    pub settings: Settings,
    pub surface: Seq<MessageView>,
    pub head: Option<MessageView>,
    pub prompt_anchor: Option<(usize, u64)>,
    pub phase: PhaseView,
}

impl View for Turn {
    type V = TurnView;

    closed spec fn view(&self) -> TurnView {
        TurnView {
            settings: self.settings,
            surface: self.session@.surface,
            head: self.session@.head,
            prompt_anchor: self.prompt_anchor,
            phase: self.phase@,
        }
    }
}

// ---------------------------------------------------------------------------------------------
// What happens
// ---------------------------------------------------------------------------------------------

/// The session head with a channel list.
pub open spec fn channels_head(list: Seq<char>) -> MessageView {
    session::plain(Role::User, CHANNELS_PREAMBLE@ + list)
}

/// The full wire surface: the system prompt, the frozen channel list, then the session content.
pub open spec fn composed(t: TurnView) -> Seq<MessageView> {
    seq![session::plain(Role::System, t.settings.system_prompt@)] + (match t.head {
        Some(m) => seq![m],
        None => Seq::empty(),
    }) + t.surface
}

/// The message that a reply is kept as; chain-of-thought is kept only in preserve mode.
pub open spec fn assistant(settings: Settings, reply: ReplyView) -> MessageView {
    MessageView {
        reasoning: if settings.preserve_thinking {
            reply.reasoning
        } else {
            Seq::empty()
        },
        tool_calls: reply.tool_calls,
        ..session::plain(Role::Assistant, reply.text)
    }
}

/// Tokens of the context: the provider's real `prompt_tokens` from the last request plus an estimate
/// of the tail appended since; before any response (and right after a compaction) a pure estimate.
pub open spec fn context_tokens(t: TurnView) -> nat {
    match t.prompt_anchor {
        Some((mark, prompt)) => prompt as nat + (if mark <= t.surface.len() {
            session::total_tokens(t.surface.skip(mark as int))
        } else {
            0
        }),
        None => session::total_tokens(t.surface) + session::tokens(
            session::plain(Role::System, t.settings.system_prompt@),
        ) + (match t.head {
            Some(m) => session::tokens(m),
            None => 0,
        }),
    }
}

/// Tokens that a compaction keeps at least.
pub open spec fn retained(t: TurnView, force: bool) -> u64 {
    if force && t.settings.compaction_retain_tokens > FORCED_RETAIN_TOKENS {
        FORCED_RETAIN_TOKENS
    } else {
        t.settings.compaction_retain_tokens
    }
}

/// How many messages a compaction shadows, where there is to be one: the token total has crossed
/// the threshold, which an overflow bypasses, and there is something to shadow.
pub open spec fn compaction_plan(t: TurnView, force: bool) -> Option<usize> {
    if !force && context_tokens(t) < t.settings.compaction_threshold_tokens {
        None
    } else {
        session::shadow(t.surface, retained(t, force) as nat)
    }
}

/// Tokens that the summary has to stay below: those of as many messages as are shadowed, counted
/// from the second one on.
pub open spec fn shadowed_tokens(t: TurnView, shadowed: nat) -> nat {
    session::total_tokens(t.surface.subrange(1, 1 + shadowed as int))
}

/// Ask the model.
pub open spec fn ask(t: TurnView, retry: bool) -> (TurnView, ActionView) {
    (TurnView { phase: PhaseView::Asking(retry), ..t }, ActionView::Ask(composed(t)))
}

/// Write a message to the log.
pub open spec fn save(t: TurnView, message: MessageView, after: AfterView) -> (TurnView, ActionView) {
    (TurnView { phase: PhaseView::Saving(message, after), ..t }, ActionView::Append(OpView::Append(message)))
}

/// The turn is over.
pub open spec fn end(t: TurnView, action: ActionView) -> (TurnView, ActionView) {
    (TurnView { phase: PhaseView::Idle, ..t }, action)
}

/// What comes after compaction, whether or not it took place.
pub open spec fn resume(t: TurnView, force: bool) -> (TurnView, ActionView) {
    if force {
        ask(t, true)
    } else {
        end(t, ActionView::Done)
    }
}

/// Compact where it is due. The request replays the surface verbatim, so the provider prefix cache
/// stays warm and only the instruction is novel.
pub open spec fn compaction(t: TurnView, force: bool) -> (TurnView, ActionView) {
    match compaction_plan(t, force) {
        None => resume(t, force),
        Some(shadowed) => {
            let scratch = composed(t).push(session::plain(Role::User, COMPACTION_INSTRUCTION@));
            (
                TurnView { phase: PhaseView::Summarizing(Compaction { shadowed, force }, scratch), ..t },
                ActionView::Ask(scratch),
            )
        },
    }
}

/// A turn begins with a message to the model.
pub open spec fn begun(t: TurnView, wake: MessageView) -> (TurnView, ActionView) {
    save(t, wake, AfterView::Ask)
}

/// The metric is anchored to the provider's own token count for this exact surface state.
pub open spec fn anchored(t: TurnView, reply: ReplyView) -> TurnView {
    match reply.prompt_tokens {
        Some(p) => TurnView { prompt_anchor: Some((t.surface.len() as usize, p)), ..t },
        None => t,
    }
}

/// The model has replied, or not. An overflow is compacted away and the request retried once.
pub open spec fn replied(t: TurnView, retry: bool, outcome: Result<ReplyView, ChatErrorView>) -> (
    TurnView,
    ActionView,
) {
    match outcome {
        Ok(reply) => save(
            anchored(t, reply),
            assistant(t.settings, reply),
            if reply.tool_calls.len() == 0 {
                AfterView::EndOfTurn
            } else {
                AfterView::Tools(reply.tool_calls)
            },
        ),
        Err(e) => if e is ContextOverflow && !retry {
            compaction(t, true)
        } else {
            end(t, ActionView::Failed("llm request failed: "@ + e.text()))
        },
    }
}

/// The compacted surface: the checkpoint, then the kept tail.
pub open spec fn compacted(t: TurnView, shadowed: nat, summary: Seq<char>) -> Seq<MessageView> {
    seq![session::checkpoint(summary)] + t.surface.skip(shadowed as int)
}

/// The summarizer has replied, or not. A summary that is empty or not smaller than
/// [`shadowed_tokens`] is not used, nor is there one where the request failed: the turn continues
/// with the uncompacted surface.
pub open spec fn summarized(
    t: TurnView,
    plan: Compaction,
    scratch: Seq<MessageView>,
    outcome: Result<ReplyView, ChatErrorView>,
) -> (TurnView, ActionView) {
    match outcome {
        Err(_) => resume(t, plan.force),
        Ok(reply) => if reply.tool_calls.len() > 0 {
            (
                TurnView {
                    phase: PhaseView::SummaryTool(
                        plan,
                        scratch.push(assistant(t.settings, reply)),
                        reply.tool_calls,
                        0,
                    ),
                    ..t
                },
                ActionView::Run(reply.tool_calls[0]),
            )
        } else if text::trim(reply.text).len() == 0 || session::tokens(session::plain(Role::User, reply.text))
            >= shadowed_tokens(t, plan.shadowed as nat) {
            resume(t, plan.force)
        } else {
            (
                TurnView { phase: PhaseView::Rotating(plan, reply.text), ..t },
                ActionView::Rotate(session::appends(compacted(t, plan.shadowed as nat, reply.text))),
            )
        },
    }
}

/// A tool of the turn has run.
pub open spec fn tool_ran(t: TurnView, calls: Seq<ToolCallView>, next: nat, out: Seq<char>) -> (TurnView, ActionView) {
    save(t, session::result_of(calls[next as int].id, out), AfterView::NextTool(calls, next + 1))
}

/// A tool of the summarizer has run.
pub open spec fn summary_tool_ran(
    t: TurnView,
    plan: Compaction,
    scratch: Seq<MessageView>,
    calls: Seq<ToolCallView>,
    next: nat,
    out: Seq<char>,
) -> (TurnView, ActionView) {
    let noted = scratch.push(session::result_of(calls[next as int].id, out));
    if next + 1 < calls.len() {
        (
            TurnView { phase: PhaseView::SummaryTool(plan, noted, calls, next + 1), ..t },
            ActionView::Run(calls[next as int + 1]),
        )
    } else {
        (TurnView { phase: PhaseView::Summarizing(plan, noted), ..t }, ActionView::Ask(noted))
    }
}

/// Go on with the call of that index, or ask the model where all have run.
pub open spec fn next_call(t: TurnView, calls: Seq<ToolCallView>, next: nat) -> (TurnView, ActionView) {
    if next < calls.len() {
        (TurnView { phase: PhaseView::Tool(calls, next), ..t }, ActionView::Run(calls[next as int]))
    } else {
        ask(t, false)
    }
}

/// The message is in the log, and so in the conversation.
pub open spec fn appended(t: TurnView, message: MessageView, after: AfterView) -> (TurnView, ActionView) {
    let s = TurnView { surface: t.surface.push(message), ..t };
    match after {
        AfterView::Ask => ask(s, false),
        // Nobody is waiting: compact here, in the pause, so the next user message never pays for it.
        AfterView::EndOfTurn => compaction(s, false),
        AfterView::Tools(calls) => next_call(s, calls, 0),
        AfterView::NextTool(calls, next) => next_call(s, calls, next),
    }
}

/// The fresh log is begun: a new generation, with the channel list scanned anew. The anchor
/// described the old surface.
pub open spec fn rotated(t: TurnView, plan: Compaction, summary: Seq<char>, list: Seq<char>) -> (TurnView, ActionView) {
    resume(
        TurnView {
            surface: compacted(t, plan.shadowed as nat, summary),
            head: Some(channels_head(list)),
            prompt_anchor: None,
            ..t
        },
        plan.force,
    )
}

/// Something was written to the log, or could not be. A message that could not be written ends the
/// turn; where no fresh log could be begun, the turn continues with the uncompacted surface.
pub open spec fn written(t: TurnView, outcome: Result<(), Seq<char>>, list: Seq<char>) -> (TurnView, ActionView) {
    match outcome {
        Err(e) => match t.phase {
            PhaseView::Rotating(plan, _) => resume(t, plan.force),
            _ => end(t, ActionView::Failed(e)),
        },
        Ok(_) => match t.phase {
            PhaseView::Saving(message, after) => appended(t, message, after),
            PhaseView::Rotating(plan, summary) => rotated(t, plan, summary, list),
            _ => end(t, ActionView::Done),
        },
    }
}

/// Whether a compaction is one of part of the surface.
pub open spec fn fitting(t: TurnView, plan: Compaction) -> bool {
    0 < plan.shadowed < t.surface.len()
}

/// Whether indices are in range: what every step keeps.
pub open spec fn in_course(t: TurnView) -> bool {
    match t.phase {
        PhaseView::Tool(calls, next) => next < calls.len(),
        PhaseView::Summarizing(plan, _) => fitting(t, plan),
        PhaseView::SummaryTool(plan, _, calls, next) => fitting(t, plan) && next < calls.len(),
        PhaseView::Rotating(plan, _) => fitting(t, plan),
        PhaseView::Saving(_, AfterView::NextTool(calls, next)) => 0 < next <= calls.len(),
        PhaseView::Saving(_, AfterView::Tools(calls)) => calls.len() > 0,
        _ => true,
    }
}

/// Whether a reply of the model is being waited for.
pub open spec fn waits_for_reply(p: PhaseView) -> bool {
    p is Asking || p is Summarizing
}

/// Whether the result of a tool is being waited for.
pub open spec fn waits_for_tool(p: PhaseView) -> bool {
    p is Tool || p is SummaryTool
}

/// Whether something is being written to the log.
pub open spec fn waits_for_log(p: PhaseView) -> bool {
    p is Saving || p is Rotating
}

/// What a step comes to when an outcome arrives.
pub open spec fn after_reply(t: TurnView, outcome: Result<ReplyView, ChatErrorView>) -> (TurnView, ActionView) {
    match t.phase {
        PhaseView::Asking(retry) => replied(t, retry, outcome),
        PhaseView::Summarizing(plan, scratch) => summarized(t, plan, scratch, outcome),
        _ => end(t, ActionView::Done),
    }
}

/// What a step comes to when a tool has run.
pub open spec fn after_tool(t: TurnView, out: Seq<char>) -> (TurnView, ActionView) {
    match t.phase {
        PhaseView::Tool(calls, next) => tool_ran(t, calls, next, out),
        PhaseView::SummaryTool(plan, scratch, calls, next) => summary_tool_ran(t, plan, scratch, calls, next, out),
        _ => end(t, ActionView::Done),
    }
}

/// What a log outcome holds.
pub open spec fn log_view(outcome: Result<(), String>) -> Result<(), Seq<char>> {
    match outcome {
        Ok(_) => Ok(()),
        Err(e) => Err(e@),
    }
}

// ---------------------------------------------------------------------------------------------
// Doing it
// ---------------------------------------------------------------------------------------------

impl Turn {
    /// A conversation with no turn under way.
    pub fn new(settings: Settings, session: Session) -> (r: Self)
        ensures
            r@ == (TurnView {
                settings,
                surface: session@.surface,
                head: session@.head,
                prompt_anchor: None,
                phase: PhaseView::Idle,
            }),
            in_course(r@),
    {
        Turn { settings, session, prompt_anchor: None, phase: Phase::Idle }
    }

    /// The conversation.
    pub fn session(&self) -> (r: &Session)
        ensures
            r@ == (SessionView { surface: self@.surface, head: self@.head }),
    {
        &self.session
    }

    /// Whether no turn is under way.
    pub fn is_idle(&self) -> (r: bool)
        ensures
            r == (self@.phase is Idle),
    {
        matches!(self.phase, Phase::Idle)
    }

    /// Whether a reply of the model is being waited for.
    pub fn awaits_reply(&self) -> (r: bool)
        ensures
            r == waits_for_reply(self@.phase),
    {
        matches!(self.phase, Phase::Asking { .. } | Phase::Summarizing { .. })
    }

    /// Whether the result of a tool is being waited for.
    pub fn awaits_tool(&self) -> (r: bool)
        ensures
            r == waits_for_tool(self@.phase),
    {
        matches!(self.phase, Phase::Tool { .. } | Phase::SummaryTool { .. })
    }

    /// Whether something is being written to the log.
    pub fn awaits_log(&self) -> (r: bool)
        ensures
            r == waits_for_log(self@.phase),
    {
        matches!(self.phase, Phase::Saving { .. } | Phase::Rotating { .. })
    }

    /// Freeze a channel list into the session head: byte-stable within a session generation
    /// (prefix-cache friendly), scanned anew at startup and after every compaction.
    pub fn seed_channels(&mut self, list: &str)
        ensures
            final(self)@ == (TurnView { head: Some(channels_head(list@)), ..old(self)@ }),
    {
        let mut text = CHANNELS_PREAMBLE.to_owned();
        text.append(list);
        self.session.set_head(Message::user(text.as_str()));
    }

    fn system_message(&self) -> (r: Message)
        ensures
            r@ == session::plain(Role::System, self@.settings.system_prompt@),
    {
        Message::system(self.settings.system_prompt.as_str())
    }

    /// The full wire surface.
    pub fn composed(&self) -> (r: Vec<Message>)
        ensures
            session::views(r@) == composed(self@),
    {
        let mut msgs: Vec<Message> = Vec::new();
        msgs.push(self.system_message());
        if let Some(head) = self.session.head() {
            msgs.push(head.clone());
        }
        let ghost front = session::views(msgs@);
        let mut rest = copy_messages(self.session.surface(), 0);
        let ghost back = session::views(rest@);
        msgs.append(&mut rest);
        proof {
            assert(back =~= self@.surface);
            assert(session::views(msgs@) =~= front + back);
            assert(session::views(msgs@) =~= composed(self@));
        }
        msgs
    }

    fn ask_model(&mut self, retry: bool) -> (r: Action)
        ensures
            (final(self)@, r@) == ask(old(self)@, retry),
    {
        let msgs = self.composed();
        self.phase = Phase::Asking { retry };
        Action::Ask(msgs)
    }

    fn save_message(&mut self, message: Message, after: After) -> (r: Action)
        ensures
            (final(self)@, r@) == save(old(self)@, message@, after@),
    {
        let op = Op::Append { message: message.clone() };
        self.phase = Phase::Saving { message, after };
        Action::Append(op)
    }

    fn go_on(&mut self, force: bool) -> (r: Action)
        ensures
            (final(self)@, r@) == resume(old(self)@, force),
    {
        if force {
            self.ask_model(true)
        } else {
            self.phase = Phase::Idle;
            Action::Done
        }
    }

    /// Whether the token total has crossed the threshold.
    fn over_threshold(&self) -> (r: bool)
        ensures
            r == (context_tokens(self@) >= self@.settings.compaction_threshold_tokens),
    {
        let ghost t = self@;
        let total: u128 = match self.prompt_anchor {
            Some((mark, prompt)) => {
                let tail: u128 = self.session.tail_cost(mark);
                add_capped(prompt as u128, tail)
            },
            None => {
                let tail: u128 = self.session.tail_cost(0);
                proof {
                    assert(t.surface.skip(0) =~= t.surface);
                }
                let system: u128 = message_cost(&self.system_message());
                let sum: u128 = add_capped(tail, system);
                match self.session.head() {
                    Some(m) => {
                        let head: u128 = message_cost(m);
                        add_capped(sum, head)
                    },
                    None => sum,
                }
            },
        };
        total >= self.settings.compaction_threshold_tokens as u128
    }

    /// How many messages a compaction shadows, where there is to be one.
    pub fn plan_compaction(&self, force: bool) -> (r: Option<usize>)
        ensures
            r == compaction_plan(self@, force),
    {
        if !force && !self.over_threshold() {
            return None;
        }
        let retain: u64 = if force && self.settings.compaction_retain_tokens > FORCED_RETAIN_TOKENS {
            FORCED_RETAIN_TOKENS
        } else {
            self.settings.compaction_retain_tokens
        };
        shadow_count(self.session.surface(), retain)
    }

    fn maybe_compact(&mut self, force: bool) -> (r: Action)
        ensures
            (final(self)@, r@) == compaction(old(self)@, force),
            in_course(final(self)@),
    {
        let len: usize = self.session.surface().len();
        proof {
            assert(self@.surface.len() == len);
        }
        match self.plan_compaction(force) {
            None => self.go_on(force),
            Some(shadowed) => {
                let mut scratch = self.composed();
                let ghost before = session::views(scratch@);
                scratch.push(Message::user(COMPACTION_INSTRUCTION));
                proof {
                    assert(session::views(scratch@) =~= before.push(
                        session::plain(Role::User, COMPACTION_INSTRUCTION@),
                    ));
                    assert(session::views(scratch@).skip(0) =~= session::views(scratch@));
                    session::law_shadow_retains(old(self)@.surface, retained(old(self)@, force) as nat, shadowed);
                }
                let msgs = copy_messages(scratch.as_slice(), 0);
                self.phase = Phase::Summarizing { plan: Compaction { shadowed, force }, scratch };
                Action::Ask(msgs)
            },
        }
    }

    fn kept_reply(&self, reply: &Reply) -> (r: Message)
        ensures
            r@ == assistant(self@.settings, reply@),
    {
        let m = Message::assistant_with_calls(reply.text.as_str(), copy_calls(&reply.tool_calls));
        if self.settings.preserve_thinking {
            m.with_reasoning(reply.reasoning.as_str())
        } else {
            m
        }
    }

    /// Begin a turn with a message to the model.
    pub fn begin(&mut self, wake: Message) -> (r: Action)
        requires
            old(self)@.phase is Idle,
        ensures
            (final(self)@, r@) == begun(old(self)@, wake@),
            in_course(final(self)@),
    {
        self.save_message(wake, After::Ask)
    }

    /// Take note of what asking the model came to.
    pub fn reply(&mut self, outcome: Result<Reply, ChatError>) -> (r: Action)
        requires
            waits_for_reply(old(self)@.phase),
            in_course(old(self)@),
        ensures
            (final(self)@, r@) == after_reply(old(self)@, llm::outcome_view(outcome)),
            in_course(final(self)@),
    {
        let ghost t = self@;
        let mut phase = Phase::Idle;
        std::mem::swap(&mut phase, &mut self.phase);
        match phase {
            Phase::Asking { retry } => self.replied(retry, outcome, Ghost(t)),
            Phase::Summarizing { plan, scratch } => self.summarized(plan, scratch, outcome, Ghost(t)),
            _ => Action::Done,
        }
    }

    fn replied(&mut self, retry: bool, outcome: Result<Reply, ChatError>, Ghost(t): Ghost<TurnView>) -> (r: Action)
        requires
            old(self)@ == (TurnView { phase: PhaseView::Idle, ..t }),
        ensures
            (final(self)@, r@) == replied(t, retry, llm::outcome_view(outcome)),
            in_course(final(self)@),
    {
        match outcome {
            Ok(reply) => {
                if let Some(p) = reply.prompt_tokens {
                    let mark: usize = self.session.surface().len();
                    self.prompt_anchor = Some((mark, p));
                }
                let message = self.kept_reply(&reply);
                let over = reply.tool_calls.len() == 0;
                proof {
                    assert(session::calls_view(reply.tool_calls@).len() == reply.tool_calls@.len());
                }
                let after = if over {
                    After::EndOfTurn
                } else {
                    After::Tools(reply.tool_calls)
                };
                self.save_message(message, after)
            },
            Err(ChatError::ContextOverflow(e)) => if retry {
                self.fail("llm request failed: ", e.as_str())
            } else {
                self.maybe_compact(true)
            },
            Err(e) => self.fail("llm request failed: ", e.message()),
        }
    }

    fn fail(&mut self, what: &str, why: &str) -> (r: Action)
        ensures
            (final(self)@, r@) == end(old(self)@, ActionView::Failed(what@ + why@)),
    {
        let mut e = what.to_owned();
        e.append(why);
        self.phase = Phase::Idle;
        Action::Failed(e)
    }

    fn summarized(
        &mut self,
        plan: Compaction,
        scratch: Vec<Message>,
        outcome: Result<Reply, ChatError>,
        Ghost(t): Ghost<TurnView>,
    ) -> (r: Action)
        requires
            old(self)@ == (TurnView { phase: PhaseView::Idle, ..t }),
            fitting(t, plan),
        ensures
            (final(self)@, r@) == summarized(t, plan, session::views(scratch@), llm::outcome_view(outcome)),
            in_course(final(self)@),
    {
        let reply = match outcome {
            Ok(reply) => reply,
            Err(_) => {
                return self.go_on(plan.force);
            },
        };
        let message = self.kept_reply(&reply);
        if reply.tool_calls.len() > 0 {
            let mut scratch = scratch;
            let ghost before = session::views(scratch@);
            let ghost m = message@;
            scratch.push(message);
            proof {
                assert(session::views(scratch@) =~= before.push(m));
                assert(session::calls_view(reply.tool_calls@)[0] == reply.tool_calls@[0]@);
            }
            let call = reply.tool_calls[0].clone();
            self.phase = Phase::SummaryTool { plan, scratch, calls: reply.tool_calls, next: 0 };
            return Action::Run(call);
        }
        let stripped = trimmed(reply.text.as_str());
        let cost: u128 = message_cost(&Message::user(reply.text.as_str()));
        let len: usize = self.session.surface().len();
        proof {
            assert(plan.shadowed < len);
        }
        let limit: u128 = span_cost(self.session.surface(), 1, 1 + plan.shadowed);
        if stripped.as_str().is_empty() || cost >= limit {
            return self.go_on(plan.force);
        }
        let mut ops: Vec<Op> = Vec::new();
        ops.push(Op::Append { message: summary_message(reply.text.as_str()) });
        let kept = copy_messages(self.session.surface(), plan.shadowed);
        let ghost tail = session::views(kept@);
        let mut i: usize = 0;
        while i < kept.len()
            invariant
                i <= kept@.len(),
                tail == session::views(kept@),
                ops@.len() == i + 1,
                ops@[0]@ == OpView::Append(session::checkpoint(reply.text@)),
                forall|k: int| 1 <= k < i + 1 ==> (#[trigger] ops@[k])@ == OpView::Append(tail[k - 1]),
            decreases kept@.len() - i,
        {
            ops.push(Op::Append { message: kept[i].clone() });
            i += 1;
        }
        proof {
            assert(session::ops_view(ops@) =~= session::appends(compacted(t, plan.shadowed as nat, reply.text@)));
        }
        self.phase = Phase::Rotating { plan, summary: reply.text };
        Action::Rotate(ops)
    }

    /// Take note of what a tool gave.
    pub fn tool_result(&mut self, out: &str) -> (r: Action)
        requires
            waits_for_tool(old(self)@.phase),
            in_course(old(self)@),
        ensures
            (final(self)@, r@) == after_tool(old(self)@, out@),
            in_course(final(self)@),
    {
        let mut phase = Phase::Idle;
        std::mem::swap(&mut phase, &mut self.phase);
        match phase {
            Phase::Tool { calls, next } => {
                let message = Message::tool_result(calls[next].id.as_str(), out);
                proof {
                    assert(session::calls_view(calls@)[next as int] == calls@[next as int]@);
                }
                let len: usize = calls.len();
                proof {
                    assert(next < len);
                }
                self.save_message(message, After::NextTool(calls, next + 1))
            },
            Phase::SummaryTool { plan, scratch, calls, next } => {
                let mut scratch = scratch;
                let ghost before = session::views(scratch@);
                let message = Message::tool_result(calls[next].id.as_str(), out);
                let ghost m = message@;
                scratch.push(message);
                proof {
                    assert(session::calls_view(calls@)[next as int] == calls@[next as int]@);
                    assert(session::views(scratch@) =~= before.push(m));
                }
                let len: usize = calls.len();
                if next + 1 < len {
                    proof {
                        assert(session::calls_view(calls@)[next + 1] == calls@[next + 1]@);
                    }
                    let call = calls[next + 1].clone();
                    self.phase = Phase::SummaryTool { plan, scratch, calls, next: next + 1 };
                    Action::Run(call)
                } else {
                    proof {
                        assert(session::views(scratch@).skip(0) =~= session::views(scratch@));
                    }
                    let msgs = copy_messages(scratch.as_slice(), 0);
                    self.phase = Phase::Summarizing { plan, scratch };
                    Action::Ask(msgs)
                }
            },
            _ => Action::Done,
        }
    }

    fn run_call(&mut self, calls: Vec<ToolCall>, next: usize) -> (r: Action)
        ensures
            (final(self)@, r@) == next_call(old(self)@, session::calls_view(calls@), next as nat),
            in_course(final(self)@),
    {
        if next < calls.len() {
            let call = calls[next].clone();
            proof {
                assert(session::calls_view(calls@)[next as int] == calls@[next as int]@);
            }
            self.phase = Phase::Tool { calls, next };
            Action::Run(call)
        } else {
            self.ask_model(false)
        }
    }

    /// Take note of whether the log was written. `list` is the channel list as it stands.
    pub fn logged(&mut self, outcome: Result<(), String>, list: &str) -> (r: Action)
        requires
            waits_for_log(old(self)@.phase),
            in_course(old(self)@),
        ensures
            (final(self)@, r@) == written(old(self)@, log_view(outcome), list@),
            in_course(final(self)@),
    {
        let mut phase = Phase::Idle;
        std::mem::swap(&mut phase, &mut self.phase);
        if let Err(e) = outcome {
            return match phase {
                Phase::Rotating { plan, .. } => self.go_on(plan.force),
                _ => Action::Failed(e),
            };
        }
        match phase {
            Phase::Saving { message, after } => {
                self.session.append(message);
                match after {
                    After::Ask => self.ask_model(false),
                    After::EndOfTurn => self.maybe_compact(false),
                    After::Tools(calls) => self.run_call(calls, 0),
                    After::NextTool(calls, next) => self.run_call(calls, next),
                }
            },
            Phase::Rotating { plan, summary } => {
                self.session.compact(plan.shadowed, summary.as_str());
                self.seed_channels(list);
                self.prompt_anchor = None;
                self.go_on(plan.force)
            },
            _ => Action::Done,
        }
    }
}

// ---------------------------------------------------------------------------------------------
// Laws
// ---------------------------------------------------------------------------------------------

/// An overflow is compacted away and the request retried once: the request that compaction leads to
/// is a retry, and a retry that fails ends the turn, whatever the error.
pub proof fn law_overflow_is_retried_once(t: TurnView, e: ChatErrorView)
    ensures
        replied(t, true, Err(e)) == end(t, ActionView::Failed("llm request failed: "@ + e.text())),
        resume(t, true).0.phase == PhaseView::Asking(true),
        e is ContextOverflow ==> (replied(t, false, Err(e)).0.phase == PhaseView::Asking(true) || replied(
            t,
            false,
            Err(e),
        ).0.phase is Summarizing),
{
}

/// Compaction failure is never fatal and changes nothing: until the fresh log is begun, the
/// conversation stays as it is, and neither an outcome of the summarizer nor a log that cannot be
/// begun fails the turn.
pub proof fn law_failed_compaction_changes_nothing(
    t: TurnView,
    plan: Compaction,
    scratch: Seq<MessageView>,
    outcome: Result<ReplyView, ChatErrorView>,
    e: Seq<char>,
    list: Seq<char>,
)
    ensures
        t.phase is Rotating ==> ({
            let (after, action) = written(t, Err(e), list);
            &&& after.surface == t.surface
            &&& after.head == t.head
            &&& after.prompt_anchor == t.prompt_anchor
            &&& !(action is Failed)
        }),
        ({
            let (after, action) = summarized(t, plan, scratch, outcome);
            &&& after.surface == t.surface
            &&& after.head == t.head
            &&& after.prompt_anchor == t.prompt_anchor
            &&& !(action is Failed)
        }),
{
}

/// What the model was asked stays the beginning of what it is asked next, until a fresh log is begun:
/// the prompt, the frozen channel list and the conversation so far, so that the provider's prefix
/// cache stays warm. The summarizer is asked the same with the instruction behind it.
pub proof fn law_prefix_is_stable(
    t: TurnView,
    wake: MessageView,
    reply: Result<ReplyView, ChatErrorView>,
    out: Seq<char>,
    outcome: Result<(), Seq<char>>,
    list: Seq<char>,
    force: bool,
)
    requires
        t.phase is Rotating ==> outcome is Err,
    ensures
        composed(t).is_prefix_of(composed(begun(t, wake).0)),
        composed(t).is_prefix_of(composed(after_reply(t, reply).0)),
        composed(t).is_prefix_of(composed(after_tool(t, out).0)),
        composed(t).is_prefix_of(composed(written(t, outcome, list).0)),
        ask(t, force).1 == ActionView::Ask(composed(t)),
        compaction_plan(t, force) is Some ==> compaction(t, force).1 == ActionView::Ask(
            composed(t).push(session::plain(Role::User, COMPACTION_INSTRUCTION@)),
        ),
{
    let after = written(t, outcome, list).0;
    assert(composed(t).is_prefix_of(composed(after))) by {
        if let PhaseView::Saving(message, _) = t.phase {
            if outcome is Ok {
                assert(composed(after) =~= composed(t).push(message));
            }
        }
    }
}

/// What a summary stands in for is never empty: compaction shadows something and keeps something,
/// and what it keeps does not begin with a tool result.
pub proof fn law_compaction_keeps_a_tail(t: TurnView, force: bool)
    requires
        t.surface.len() <= usize::MAX,
    ensures
        compaction_plan(t, force) matches Some(n) ==> {
            &&& 0 < n < t.surface.len()
            &&& t.surface[n as int].role != Role::Tool
            &&& session::total_tokens(t.surface.skip(n as int)) >= retained(t, force)
        },
{
    if let Some(n) = compaction_plan(t, force) {
        session::law_shadow_retains(t.surface, retained(t, force) as nat, n);
    }
}

proof fn lemma_total_of_push(msgs: Seq<MessageView>, m: MessageView)
    ensures
        session::total_tokens(msgs.push(m)) == session::total_tokens(msgs) + session::tokens(m),
    decreases msgs.len(),
{
    let all = msgs.push(m);
    if msgs.len() == 0 {
        assert(all.drop_first() =~= msgs);
    } else {
        assert(all.drop_first() =~= msgs.drop_first().push(m));
        lemma_total_of_push(msgs.drop_first(), m);
    }
}

/// What a fresh log is begun with is the checkpoint and the kept tail, and only where the summary is
/// small enough. It then costs less than what it shadows, as long as the first kept message costs no
/// more than the first of all.
pub proof fn law_summaries_are_smaller(
    t: TurnView,
    plan: Compaction,
    scratch: Seq<MessageView>,
    outcome: Result<ReplyView, ChatErrorView>,
)
    requires
        fitting(t, plan),
    ensures
        summarized(t, plan, scratch, outcome).1 matches ActionView::Rotate(ops) ==> {
            let cost = session::tokens(session::plain(Role::User, outcome->Ok_0.text));
            &&& outcome is Ok
            &&& ops == session::appends(compacted(t, plan.shadowed as nat, outcome->Ok_0.text))
            &&& cost < shadowed_tokens(t, plan.shadowed as nat)
            &&& session::tokens(t.surface[plan.shadowed as int]) <= session::tokens(t.surface[0]) ==> cost
                < session::total_tokens(t.surface.take(plan.shadowed as int))
        },
{
    let n = plan.shadowed as int;
    let inner = t.surface.subrange(1, n);
    lemma_total_of_push(inner, t.surface[n]);
    assert(inner.push(t.surface[n]) =~= t.surface.subrange(1, 1 + n));
    assert(t.surface.take(n).drop_first() =~= inner);
}

/// The conversation is what its log says: a log that stands for the surface still does after each
/// write that the turn asks for.
pub proof fn law_log_keeps_up(t: TurnView, log: Seq<OpView>, list: Seq<char>)
    requires
        session::replayed(log) == t.surface,
        waits_for_log(t.phase),
    ensures
        t.phase matches PhaseView::Saving(message, after) ==> session::replayed(log.push(OpView::Append(message)))
            == written(t, Ok(()), list).0.surface,
        t.phase matches PhaseView::Rotating(plan, summary) ==> session::replayed(
            session::appends(compacted(t, plan.shadowed as nat, summary)),
        ) == written(t, Ok(()), list).0.surface,
{
    match t.phase {
        PhaseView::Saving(message, after) => {
            assert(log.push(OpView::Append(message)).drop_last() =~= log);
        },
        PhaseView::Rotating(plan, summary) => {
            session::law_log_roundtrip(compacted(t, plan.shadowed as nat, summary));
        },
        _ => {},
    }
}

/// The calls whose results the conversation still lacks.
pub open spec fn owed(p: PhaseView) -> Seq<ToolCallView> {
    match p {
        PhaseView::Tool(calls, next) => calls.skip(next as int),
        PhaseView::Saving(_, AfterView::NextTool(calls, next)) => calls.skip(next - 1),
        _ => Seq::empty(),
    }
}

/// Results for calls.
pub open spec fn stand_ins(calls: Seq<ToolCallView>) -> Seq<MessageView> {
    Seq::new(calls.len(), |i: int| session::interrupted(calls[i].id))
}

/// Whether the conversation lacks the results that are still to come and no others, likewise the
/// summarizer's copy of it, what is being written fits in there, the head calls nothing, and what a
/// compaction keeps does not begin with a tool result.
pub open spec fn orderly(t: TurnView) -> bool {
    &&& session::answered(t.surface + stand_ins(owed(t.phase)))
    &&& t.head matches Some(m) ==> session::calls_of(m).len() == 0
    &&& match t.phase {
        PhaseView::Saving(m, AfterView::Tools(calls)) => m.role == Role::Assistant && m.tool_calls == calls,
        PhaseView::Saving(m, AfterView::NextTool(calls, next)) => session::answers_call(m, calls[next - 1].id),
        PhaseView::Saving(m, _) => session::calls_of(m).len() == 0,
        PhaseView::Summarizing(plan, scratch) => {
            &&& t.surface[plan.shadowed as int].role != Role::Tool
            &&& session::answered(scratch)
        },
        PhaseView::SummaryTool(plan, scratch, calls, next) => {
            &&& t.surface[plan.shadowed as int].role != Role::Tool
            &&& session::answered(scratch + stand_ins(calls.skip(next as int)))
        },
        PhaseView::Rotating(plan, _) => t.surface[plan.shadowed as int].role != Role::Tool,
        _ => true,
    }
}

/// Whether a step leaves the turn in order, and what the model is asked, if it is, lacks no result:
/// every call has its result, right behind it and in the order of the calls. Providers reject a
/// conversation where one is lacking.
pub open spec fn proper(step: (TurnView, ActionView)) -> bool {
    &&& orderly(step.0)
    &&& step.1 matches ActionView::Ask(msgs) ==> session::answered(msgs)
    &&& step.0.phase is Idle ==> session::answered(step.0.surface)
}

proof fn lemma_answered_parts(s: Seq<MessageView>, u: Seq<MessageView>)
    requires
        session::answered(s),
        session::answered(u),
    ensures
        session::answered(s + u),
    decreases s.len(),
{
    if s.len() == 0 {
        assert(s + u =~= u);
    } else {
        let calls = session::calls_of(s[0]);
        let rest = s.drop_first();
        let n = calls.len() as int;
        lemma_answered_parts(rest.skip(n), u);
        let whole = s + u;
        assert(whole[0] == s[0]);
        assert(whole.drop_first().skip(n) =~= rest.skip(n) + u);
        assert forall|k: int| 0 <= k < calls.len() implies session::answers_call(
            #[trigger] whole.drop_first()[k],
            calls[k].id,
        ) by {
            assert(whole.drop_first()[k] == rest[k]);
        }
    }
}

proof fn lemma_answered_update(s: Seq<MessageView>, i: int, m: MessageView)
    requires
        session::answered(s),
        0 <= i < s.len(),
        s[i].role == Role::Tool,
        m.role == Role::Tool,
        m.tool_call_id == s[i].tool_call_id,
    ensures
        session::answered(s.update(i, m)),
    decreases s.len(),
{
    let calls = session::calls_of(s[0]);
    let rest = s.drop_first();
    let n = calls.len() as int;
    let t = s.update(i, m);
    if i == 0 {
        assert(t.drop_first() =~= rest);
        assert(t.drop_first().skip(0) =~= rest);
        assert(rest.skip(0) =~= rest);
    } else {
        assert(t[0] == s[0]);
        assert(t.drop_first() =~= rest.update(i - 1, m));
        if i - 1 >= n {
            lemma_answered_update(rest.skip(n), i - 1 - n, m);
            assert(t.drop_first().skip(n) =~= rest.skip(n).update(i - 1 - n, m));
        } else {
            assert(t.drop_first().skip(n) =~= rest.skip(n));
        }
        assert forall|k: int| 0 <= k < calls.len() implies session::answers_call(
            #[trigger] t.drop_first()[k],
            calls[k].id,
        ) by {
            assert(session::answers_call(rest[k], calls[k].id));
        }
    }
}

proof fn lemma_answered_single(m: MessageView)
    requires
        session::calls_of(m).len() == 0,
    ensures
        session::answered(seq![m]),
{
    let s = seq![m];
    assert(s.drop_first().skip(0) =~= Seq::<MessageView>::empty());
    assert(session::answered(s.drop_first().skip(0)));
}

proof fn lemma_append_plain(s: Seq<MessageView>, m: MessageView)
    requires
        session::answered(s),
        session::calls_of(m).len() == 0,
    ensures
        session::answered(s.push(m)),
{
    lemma_answered_single(m);
    lemma_answered_parts(s, seq![m]);
    assert(s + seq![m] =~= s.push(m));
}

proof fn lemma_append_calls(s: Seq<MessageView>, m: MessageView)
    requires
        session::answered(s),
        m.role == Role::Assistant,
    ensures
        session::answered(s.push(m) + stand_ins(m.tool_calls)),
{
    let calls = m.tool_calls;
    let u = seq![m] + stand_ins(calls);
    assert(u.drop_first() =~= stand_ins(calls));
    assert(u.drop_first().skip(calls.len() as int) =~= Seq::<MessageView>::empty());
    assert(session::answered(u.drop_first().skip(calls.len() as int)));
    assert(session::calls_of(u[0]) == calls);
    assert forall|k: int| 0 <= k < calls.len() implies session::answers_call(#[trigger] u.drop_first()[k], calls[k].id) by {
        assert(u.drop_first()[k] == session::interrupted(calls[k].id));
    }
    assert(session::answered(u));
    lemma_answered_parts(s, u);
    assert(s + u =~= s.push(m) + stand_ins(calls));
}

proof fn lemma_append_result(s: Seq<MessageView>, calls: Seq<ToolCallView>, m: MessageView)
    requires
        calls.len() > 0,
        session::answered(s + stand_ins(calls)),
        session::answers_call(m, calls[0].id),
    ensures
        session::answered(s.push(m) + stand_ins(calls.drop_first())),
{
    let whole = s + stand_ins(calls);
    let i = s.len() as int;
    assert(whole[i] == session::interrupted(calls[0].id));
    lemma_answered_update(whole, i, m);
    assert(whole.update(i, m) =~= s.push(m) + stand_ins(calls.drop_first()));
}

proof fn lemma_composed_is_answered(t: TurnView)
    requires
        session::answered(t.surface),
        t.head matches Some(m) ==> session::calls_of(m).len() == 0,
    ensures
        session::answered(composed(t)),
{
    let system = session::plain(Role::System, t.settings.system_prompt@);
    lemma_answered_single(system);
    match t.head {
        Some(m) => {
            lemma_answered_single(m);
            lemma_answered_parts(seq![system], seq![m]);
            lemma_answered_parts(seq![system] + seq![m], t.surface);
        },
        None => {
            lemma_answered_parts(seq![system], t.surface);
            assert(seq![system] + Seq::<MessageView>::empty() =~= seq![system]);
        },
    }
}

proof fn lemma_nothing_owed(t: TurnView)
    ensures
        t.surface + stand_ins(Seq::empty()) == t.surface,
{
    assert(t.surface + stand_ins(Seq::empty()) =~= t.surface);
}

proof fn lemma_compaction_is_proper(t: TurnView, force: bool)
    requires
        t.surface.len() <= usize::MAX,
        session::answered(t.surface),
        t.head matches Some(m) ==> session::calls_of(m).len() == 0,
    ensures
        proper(compaction(t, force)),
{
    lemma_nothing_owed(t);
    law_compaction_keeps_a_tail(t, force);
    lemma_composed_is_answered(t);
    lemma_append_plain(composed(t), session::plain(Role::User, COMPACTION_INSTRUCTION@));
}

/// A conversation that was loaded from its log is in order, whatever was cut off before.
pub proof fn law_loaded_conversations_are_in_order(settings: Settings, ops: Seq<OpView>, list: Seq<char>)
    ensures
        orderly(
            TurnView {
                settings,
                surface: session::surface_of_log(ops),
                head: Some(channels_head(list)),
                prompt_anchor: None,
                phase: PhaseView::Idle,
            },
        ),
{
    session::law_repair_answers(session::replayed(ops));
    let surface = session::surface_of_log(ops);
    assert(surface + stand_ins(Seq::empty()) =~= surface);
}

/// A turn that begins in order, with a message that calls nothing, stays in order.
pub proof fn law_turns_begin_in_order(t: TurnView, wake: MessageView)
    requires
        t.phase is Idle,
        orderly(t),
        session::calls_of(wake).len() == 0,
    ensures
        proper(begun(t, wake)),
{
}

/// Whatever the model or the summarizer replies, the turn stays in order and asks nothing improper.
pub proof fn law_replies_keep_order(t: TurnView, outcome: Result<ReplyView, ChatErrorView>)
    requires
        waits_for_reply(t.phase),
        t.surface.len() <= usize::MAX,
        orderly(t),
    ensures
        proper(after_reply(t, outcome)),
{
    lemma_nothing_owed(t);
    lemma_composed_is_answered(t);
    match t.phase {
        PhaseView::Asking(retry) => {
            if let Err(e) = outcome {
                if e is ContextOverflow && !retry {
                    lemma_compaction_is_proper(t, true);
                }
            }
        },
        PhaseView::Summarizing(plan, scratch) => {
            if let Ok(reply) = outcome {
                let m = assistant(t.settings, reply);
                lemma_append_calls(scratch, m);
                assert(reply.tool_calls.skip(0) =~= reply.tool_calls);
            }
        },
        _ => {},
    }
}

/// Whatever a tool gives, the turn stays in order and asks nothing improper.
pub proof fn law_results_keep_order(t: TurnView, out: Seq<char>)
    requires
        waits_for_tool(t.phase),
        in_course(t),
        orderly(t),
    ensures
        proper(after_tool(t, out)),
{
    if let PhaseView::SummaryTool(plan, scratch, calls, next) = t.phase {
        let left = calls.skip(next as int);
        let m = session::result_of(calls[next as int].id, out);
        assert(left[0] == calls[next as int]);
        lemma_append_result(scratch, left, m);
        assert(left.drop_first() =~= calls.skip(next as int + 1));
        if next + 1 == calls.len() {
            assert(scratch.push(m) + stand_ins(left.drop_first()) =~= scratch.push(m));
        }
    }
}

/// Whether the log can be written or not, the turn stays in order and asks nothing improper, unless
/// what cannot be written is the result of a call.
pub proof fn law_writes_keep_order(t: TurnView, outcome: Result<(), Seq<char>>, list: Seq<char>)
    requires
        waits_for_log(t.phase),
        t.surface.len() < usize::MAX,
        in_course(t),
        orderly(t),
        outcome is Err ==> owed(t.phase).len() == 0,
    ensures
        proper(written(t, outcome, list)),
{
    let none = Seq::<ToolCallView>::empty();
    lemma_nothing_owed(t);
    let (after, action) = written(t, outcome, list);
    if outcome is Err {
        assert(owed(t.phase) =~= none);
        lemma_composed_is_answered(t);
    } else {
        lemma_written_is_proper(t, list);
    }
}

proof fn lemma_written_is_proper(t: TurnView, list: Seq<char>)
    requires
        waits_for_log(t.phase),
        t.surface.len() < usize::MAX,
        in_course(t),
        orderly(t),
    ensures
        proper(written(t, Ok(()), list)),
{
    let none = Seq::<ToolCallView>::empty();
    lemma_nothing_owed(t);
    let (after, action) = written(t, Ok(()), list);
    match t.phase {
        PhaseView::Saving(m, AfterView::Ask) => {
            lemma_append_plain(t.surface, m);
        },
        PhaseView::Saving(m, AfterView::EndOfTurn) => {
            lemma_append_plain(t.surface, m);
            lemma_compaction_is_proper(TurnView { surface: t.surface.push(m), ..t }, false);
        },
        PhaseView::Saving(m, AfterView::Tools(calls)) => {
            lemma_append_calls(t.surface, m);
            assert(calls.skip(0) =~= calls);
        },
        PhaseView::Saving(m, AfterView::NextTool(calls, next)) => {
            let left = calls.skip(next - 1);
            assert(left[0] == calls[next - 1]);
            lemma_append_result(t.surface, left, m);
            assert(left.drop_first() =~= calls.skip(next as int));
            if next == calls.len() {
                assert(calls.skip(next as int) =~= none);
            }
        },
        PhaseView::Rotating(plan, summary) => {
            session::lemma_answered_tail(t.surface, plan.shadowed as int);
            let c = session::checkpoint(summary);
            lemma_answered_single(c);
            lemma_answered_parts(seq![c], t.surface.skip(plan.shadowed as int));
        },
        _ => {},
    }
    lemma_nothing_owed(after);
    if after.phase is Asking {
        lemma_composed_is_answered(after);
    }
}

/// What a tool put out is recorded verbatim, as the result of its call and behind everything else: in
/// the log and then in the conversation, or in the conversation of the summarizer. The next call runs,
/// or, behind the last, the model is asked with the result as the last message.
pub proof fn law_results_are_recorded(t: TurnView, out: Seq<char>, list: Seq<char>)
    requires
        in_course(t),
        waits_for_tool(t.phase),
    ensures
        t.phase matches PhaseView::Tool(calls, next) ==> {
            let result = MessageView {
                role: Role::Tool,
                text: out,
                reasoning: Seq::empty(),
                images: Seq::empty(),
                tool_calls: Seq::empty(),
                tool_call_id: Some(calls[next as int].id),
            };
            let (s, action) = after_tool(t, out);
            let (r, following) = written(s, Ok(()), list);
            &&& action == ActionView::Append(OpView::Append(result))
            &&& s.surface == t.surface
            &&& r.surface.len() == t.surface.len() + 1
            &&& r.surface.drop_last() == t.surface
            &&& r.surface.last() == result
            &&& next + 1 < calls.len() ==> following == ActionView::Run(calls[next as int + 1]) && r.phase
                == PhaseView::Tool(calls, next + 1)
            &&& next + 1 == calls.len() ==> r.phase == PhaseView::Asking(false) && (following matches ActionView::Ask(msgs) && msgs.len() > 0
                && msgs.last() == result)
        },
        t.phase matches PhaseView::SummaryTool(plan, scratch, calls, next) ==> {
            let result = MessageView {
                role: Role::Tool,
                text: out,
                reasoning: Seq::empty(),
                images: Seq::empty(),
                tool_calls: Seq::empty(),
                tool_call_id: Some(calls[next as int].id),
            };
            let (s, action) = after_tool(t, out);
            &&& s.surface == t.surface
            &&& next + 1 < calls.len() ==> action == ActionView::Run(calls[next as int + 1]) && (s.phase matches
                PhaseView::SummaryTool(p, noted, c, k) && p == plan && c == calls && k == next + 1 && noted.len()
                == scratch.len() + 1 && noted.drop_last() == scratch && noted.last() == result)
            &&& next + 1 == calls.len() ==> (s.phase matches PhaseView::Summarizing(p, noted) && p == plan
                && action == ActionView::Ask(noted) && noted.len() == scratch.len() + 1 && noted.drop_last()
                == scratch && noted.last() == result)
        },
{
    match t.phase {
        PhaseView::Tool(calls, next) => {
            let (s, action) = after_tool(t, out);
            let result = session::result_of(calls[next as int].id, out);
            let (r, following) = written(s, Ok(()), list);
            assert(r.surface == t.surface.push(result));
            assert(r.surface.drop_last() =~= t.surface);
            if next + 1 == calls.len() {
                assert(composed(r).last() == result);
            }
        },
        PhaseView::SummaryTool(plan, scratch, calls, next) => {
            let result = session::result_of(calls[next as int].id, out);
            assert(scratch.push(result).drop_last() =~= scratch);
        },
        _ => {},
    }
}

/// What the model said is recorded verbatim, with its calls, and with its chain-of-thought where that
/// is preserved; the first of the calls runs next. The provider's token count is noted for the
/// conversation that the model was asked with.
pub proof fn law_replies_are_recorded(t: TurnView, reply: ReplyView, list: Seq<char>)
    requires
        waits_for_reply(t.phase),
    ensures
        ({
            let said = MessageView {
                role: Role::Assistant,
                text: reply.text,
                reasoning: if t.settings.preserve_thinking {
                    reply.reasoning
                } else {
                    Seq::empty()
                },
                images: Seq::empty(),
                tool_calls: reply.tool_calls,
                tool_call_id: None,
            };
            let (s, action) = after_reply(t, Ok(reply));
            let (r, following) = written(s, Ok(()), list);
            &&& t.phase is Asking ==> action == ActionView::Append(OpView::Append(said))
            &&& t.phase is Asking ==> s.surface == t.surface && r.surface == t.surface.push(said)
            &&& t.phase is Asking ==> (reply.prompt_tokens matches Some(p) ==> r.prompt_anchor == Some(
                (t.surface.len() as usize, p),
            ))
            &&& t.phase is Asking && reply.prompt_tokens is None ==> r.prompt_anchor == t.prompt_anchor
            &&& t.phase is Asking && reply.tool_calls.len() > 0 ==> following == ActionView::Run(reply.tool_calls[0])
                && r.phase == PhaseView::Tool(reply.tool_calls, 0)
            &&& t.phase is Asking && reply.tool_calls.len() == 0 ==> following is Done || r.phase is Summarizing
            &&& reply.tool_calls.len() > 0 ==> (t.phase matches PhaseView::Summarizing(plan, scratch) ==> s.phase
                == PhaseView::SummaryTool(plan, scratch.push(said), reply.tool_calls, 0) && action
                == ActionView::Run(reply.tool_calls[0]))
        }),
{
}

/// A turn asks the model with the system prompt in front, the channel list behind it, then the
/// conversation so far, and what woke it at the end; what cannot be logged is not asked.
pub proof fn law_wakes_are_asked(t: TurnView, wake: MessageView, list: Seq<char>, why: Seq<char>)
    requires
        t.phase is Idle,
    ensures
        ({
            let (s, action) = begun(t, wake);
            let (r, following) = written(s, Ok(()), list);
            let front: int = if t.head is Some {
                2
            } else {
                1
            };
            &&& action == ActionView::Append(OpView::Append(wake))
            &&& r.surface == t.surface.push(wake)
            &&& r.phase == PhaseView::Asking(false)
            &&& following matches ActionView::Ask(msgs)
            &&& msgs.len() == front + t.surface.len() + 1
            &&& msgs[0] == (MessageView {
                role: Role::System,
                text: t.settings.system_prompt@,
                reasoning: Seq::empty(),
                images: Seq::empty(),
                tool_calls: Seq::empty(),
                tool_call_id: None,
            })
            &&& t.head matches Some(head) ==> msgs[1] == head
            &&& msgs.subrange(front, front + t.surface.len()) == t.surface
            &&& msgs.last() == wake
            &&& written(s, Err(why), list).1 == ActionView::Failed(why)
            &&& written(s, Err(why), list).0 == t
        }),
{
    let (s, action) = begun(t, wake);
    let (r, following) = written(s, Ok(()), list);
    let front: int = if t.head is Some {
        2
    } else {
        1
    };
    let msgs = composed(r);
    assert(following == ActionView::Ask(msgs));
    assert(msgs.subrange(front, front + t.surface.len()) =~= t.surface);
    assert(msgs.last() == wake);
    let back = written(s, Err(why), list).0;
    assert(back == t);
}

/// A request that failed ends the turn with what is said of the error, and the conversation stays as
/// it is; only the first overflow does not.
pub proof fn law_failed_requests_end_the_turn(t: TurnView, retry: bool, why: Seq<char>)
    requires
        t.phase == PhaseView::Asking(retry),
    ensures
        after_reply(t, Err(ChatErrorView::Fatal(why))) == (
            TurnView { phase: PhaseView::Idle, ..t },
            ActionView::Failed("llm request failed: "@ + why),
        ),
        after_reply(t, Err(ChatErrorView::Transient(why))) == (
            TurnView { phase: PhaseView::Idle, ..t },
            ActionView::Failed("llm request failed: "@ + why),
        ),
        retry ==> after_reply(t, Err(ChatErrorView::ContextOverflow(why))) == (
            TurnView { phase: PhaseView::Idle, ..t },
            ActionView::Failed("llm request failed: "@ + why),
        ),
        !retry ==> !(after_reply(t, Err(ChatErrorView::ContextOverflow(why))).1 is Failed),
{
}

/// The summarizer is asked with what the model would be asked with, and the instruction, as the
/// user's, behind it.
pub proof fn law_summarizer_gets_the_instruction(t: TurnView, force: bool)
    ensures
        compaction_plan(t, force) matches Some(shadowed) ==> {
            let (s, action) = compaction(t, force);
            &&& action matches ActionView::Ask(msgs)
            &&& s.phase == PhaseView::Summarizing(Compaction { shadowed, force }, msgs)
            &&& msgs.len() == composed(t).len() + 1
            &&& msgs.drop_last() == composed(t)
            &&& msgs.last() == (MessageView {
                role: Role::User,
                text: COMPACTION_INSTRUCTION@,
                reasoning: Seq::empty(),
                images: Seq::empty(),
                tool_calls: Seq::empty(),
                tool_call_id: None,
            })
            &&& s.surface == t.surface
        },
        compaction_plan(t, force) is None && force ==> compaction(t, force).1 == ActionView::Ask(composed(t)),
        compaction_plan(t, force) is None && !force ==> compaction(t, force).1 is Done,
{
    if compaction_plan(t, force) is Some {
        let (s, action) = compaction(t, force);
        let msgs = action->Ask_0;
        assert(msgs.drop_last() =~= composed(t));
    }
}

/// Unless an overflow forces it, nothing is compacted below the threshold. As many tokens are kept as
/// the settings say, or 2000 where an overflow forces it and that is fewer; a smaller conversation is
/// left alone.
pub proof fn law_compaction_is_due_at_the_threshold(t: TurnView, force: bool)
    requires
        t.surface.len() <= usize::MAX,
    ensures
        !force && context_tokens(t) < t.settings.compaction_threshold_tokens ==> compaction_plan(t, force) is None,
        force || context_tokens(t) >= t.settings.compaction_threshold_tokens ==> ({
            let retain: int = if force && t.settings.compaction_retain_tokens > 2000 {
                2000
            } else {
                t.settings.compaction_retain_tokens as int
            };
            &&& compaction_plan(t, force) matches Some(n) ==> session::total_tokens(t.surface.skip(n as int)) >= retain
            &&& forall|c: int|
                0 < c < t.surface.len() && #[trigger] t.surface[c].role != Role::Tool && session::total_tokens(
                    t.surface.skip(c),
                ) >= retain ==> (compaction_plan(t, force) matches Some(n) && n >= c)
        }),
{
    let retain = retained(t, force);
    if force || context_tokens(t) >= t.settings.compaction_threshold_tokens {
        if let Some(n) = compaction_plan(t, force) {
            session::law_shadow_retains(t.surface, retain as nat, n);
        }
        assert forall|c: int|
            0 < c < t.surface.len() && #[trigger] t.surface[c].role != Role::Tool && session::total_tokens(
                t.surface.skip(c),
            ) >= retain implies (compaction_plan(t, force) matches Some(n) && n >= c) by {
            session::law_shadow_is_greatest(t.surface, retain as nat, c);
        }
    }
}

/// The context of a conversation that no provider has counted is estimated from all that the model is
/// asked with; each message that is recorded adds its own estimate, and where the provider counted the
/// request, its count replaces the estimate of what was there.
pub proof fn law_context_is_counted(t: TurnView, m: MessageView, reply: ReplyView, list: Seq<char>)
    requires
        t.surface.len() <= usize::MAX,
        t.prompt_anchor matches Some((mark, _)) ==> mark <= t.surface.len(),
    ensures
        t.prompt_anchor is None ==> context_tokens(t) == session::total_tokens(composed(t)),
        context_tokens(TurnView { surface: t.surface.push(m), ..t }) == context_tokens(t) + session::tokens(m),
        t.phase is Asking && reply.tool_calls.len() > 0 ==> (reply.prompt_tokens matches Some(p) ==> ({
            let r = written(after_reply(t, Ok(reply)).0, Ok(()), list).0;
            context_tokens(r) == p + session::tokens(r.surface.last())
        })),
{
    let grown = TurnView { surface: t.surface.push(m), ..t };
    match t.prompt_anchor {
        Some((mark, _)) => {
            assert(grown.surface.skip(mark as int) =~= t.surface.skip(mark as int).push(m));
            lemma_total_of_push(t.surface.skip(mark as int), m);
        },
        None => {
            lemma_total_of_push(t.surface, m);
            let system = session::plain(Role::System, t.settings.system_prompt@);
            let all = composed(t);
            assert(all[0] == system);
            let rest = all.drop_first();
            assert(session::total_tokens(all) == session::tokens(system) + session::total_tokens(rest));
            match t.head {
                Some(head) => {
                    assert(rest[0] == head);
                    assert(rest.drop_first() =~= t.surface);
                    assert(session::total_tokens(rest) == session::tokens(head) + session::total_tokens(t.surface));
                },
                None => {
                    assert(rest =~= t.surface);
                },
            }
        },
    }
    if t.phase is Asking && reply.tool_calls.len() > 0 && reply.prompt_tokens is Some {
        let r = written(after_reply(t, Ok(reply)).0, Ok(()), list).0;
        let said = assistant(t.settings, reply);
        let tail = r.surface.skip(t.surface.len() as int);
        assert(tail =~= Seq::empty().push(said));
        lemma_total_of_push(Seq::empty(), said);
        assert(session::total_tokens(Seq::<MessageView>::empty()) == 0);
    }
}

/// A compaction that takes place leaves, behind a message of the user that holds the summary verbatim,
/// the kept messages as they were; the channel list is the one that was scanned anew, and no provider
/// has counted the new conversation. The request that overflowed is then made again, and only that.
pub proof fn law_compaction_keeps_the_summary(t: TurnView, list: Seq<char>)
    requires
        in_course(t),
        t.phase is Rotating,
    ensures
        t.phase matches PhaseView::Rotating(plan, summary) ==> {
            let (r, following) = written(t, Ok(()), list);
            let kept = t.surface.len() - plan.shadowed;
            &&& r.surface.len() == kept + 1
            &&& r.surface.skip(1) == t.surface.skip(plan.shadowed as int)
            &&& r.surface[0].role == Role::User
            &&& r.surface[0].text == session::SUMMARY_PREAMBLE@ + "\n\n<compacted-summary>\n"@ + summary
                + "\n</compacted-summary>"@
            &&& r.surface[0].images.len() == 0 && r.surface[0].tool_calls.len() == 0
            &&& r.head matches Some(head) && head.role == Role::User && head.text == CHANNELS_PREAMBLE@ + list
            &&& r.prompt_anchor is None
            &&& plan.force ==> r.phase == PhaseView::Asking(true) && following == ActionView::Ask(composed(r))
            &&& !plan.force ==> r.phase is Idle && following is Done
        },
{
    if let PhaseView::Rotating(plan, summary) = t.phase {
        let r = written(t, Ok(()), list).0;
        assert(r.surface.skip(1) =~= t.surface.skip(plan.shadowed as int));
    }
}

/// A summary is used where it says something and costs less than the bound, and then a fresh log is
/// begun with it; any other is dropped, and the turn goes on as if there had been no compaction.
pub proof fn law_only_useful_summaries_are_used(t: TurnView, reply: ReplyView, i: int)
    requires
        in_course(t),
        reply.tool_calls.len() == 0,
    ensures
        t.phase matches PhaseView::Summarizing(plan, scratch) ==> {
            let cost = (reply.text.len() / 4) as int + 8;
            let bound = session::total_tokens(t.surface.subrange(1, 1 + plan.shadowed as int));
            let (s, action) = after_reply(t, Ok(reply));
            &&& 0 <= i < reply.text.len() && !text::white(reply.text[i]) && cost < bound ==> s.phase
                == PhaseView::Rotating(plan, reply.text) && action is Rotate
            &&& cost >= bound ==> !(action is Rotate)
            &&& action is Rotate ==> exists|k: int| 0 <= k < reply.text.len() && !text::white(#[trigger] reply.text[k])
            &&& !(action is Rotate) ==> s.surface == t.surface && s.head == t.head && s.prompt_anchor
                == t.prompt_anchor && (if plan.force {
                s.phase == PhaseView::Asking(true) && action == ActionView::Ask(composed(t))
            } else {
                s.phase is Idle && action is Done
            })
        },
{
    text::law_trim_cuts_white_ends(reply.text);
}

/// A turn ends with compaction where it is due, in the pause before the next one: behind a reply that
/// calls nothing the summarizer is asked just where the conversation with that reply has crossed the
/// threshold and there is something to shadow.
pub proof fn law_turns_end_with_compaction(t: TurnView, reply: ReplyView, list: Seq<char>)
    requires
        t.phase is Asking,
        reply.tool_calls.len() == 0,
    ensures
        ({
            let (r, following) = written(after_reply(t, Ok(reply)).0, Ok(()), list);
            let ended = TurnView { phase: PhaseView::Idle, ..r };
            &&& compaction_plan(ended, false) matches Some(shadowed) ==> (r.phase matches PhaseView::Summarizing(
                plan,
                scratch,
            ) && plan.shadowed == shadowed && !plan.force && following == ActionView::Ask(scratch))
            &&& compaction_plan(ended, false) is None ==> r.phase is Idle && following is Done
        }),
{
}

/// A message that cannot be logged is not in the conversation: the turn ends and says why.
pub proof fn law_unlogged_messages_end_the_turn(t: TurnView, why: Seq<char>, list: Seq<char>)
    requires
        t.phase is Saving,
    ensures
        written(t, Err(why), list) == (TurnView { phase: PhaseView::Idle, ..t }, ActionView::Failed(why)),
{
}

} // verus!
