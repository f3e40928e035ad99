//! Agent tools: filesystem/terminal plus Telegram output. Handlers never fail — every outcome
//! becomes model-readable text, so a tool error can never take down the turn. What a tool does
//! outside is planned here and reported here.
use crate::channels;
use crate::channels::{Channels, Key, LogLine};
use crate::json;
use crate::json::{Json, JsonView};
use crate::markdown;
use crate::markdown::render_markdown;
use crate::number;
use crate::number::{dec_signed, dec_unsigned};
use crate::output;
use crate::output::{render_stream, split_text};
use crate::paths;
use crate::paths::path_join;
use crate::search;
use crate::search::joined;
use crate::session::ToolCall;
use crate::text;
use crate::text::{str_eq, text_size};
use crate::tg;
use crate::tg::{Request, Telegram};
use crate::unicode;
use vstd::prelude::*;
use vstd::utf8::*;

verus! {

broadcast use vstd::seq::group_seq_axioms;

/// Milliseconds that a command may take where it is not said.
pub const BASH_DEFAULT_TIMEOUT_MS: u64 = 120_000;

/// Milliseconds that a command may take at most.
pub const BASH_MAX_TIMEOUT_MS: u64 = 600_000;

/// Lines of a file that are shown where it is not said.
pub const READ_MAX_LINES: u64 = 2000;

/// Bytes that a single Telegram message holds at most.
pub const TELEGRAM_LIMIT: usize = 4000;

// ---------------------------------------------------------------------------------------------
// Schemas
// ---------------------------------------------------------------------------------------------

/// What the model is told of `bash`.
pub const BASH_DESCRIPTION: &'static str = "Run a shell command in the workspace directory (bash -c). Non-zero exit is not an error; output includes stdout, stderr and the exit code.";

/// What the model is told of `read_file`.
pub const READ_DESCRIPTION: &'static str = "Read a text file with line numbers. Use offset to page through big files.";

/// What the model is told of `write_file`.
pub const WRITE_DESCRIPTION: &'static str = "Create or overwrite a file (parent directories are created automatically).";

/// What the model is told of `edit_file`.
pub const EDIT_DESCRIPTION: &'static str = "Replace an exact literal snippet in a file. old_string must occur exactly once unless replace_all is set. Read the file first.";

/// What the model is told of `send_message`.
pub const SEND_DESCRIPTION: &'static str = "Send a Telegram message to a channel (a DM person or a group topic). `text` is Markdown: **bold**, *italic*, ~~strikethrough~~, `inline code`, fenced ``` code blocks ```, > blockquote, # headings, - lists, [link text](url). Telegram has no tables or inline images — they degrade to plain text. Long texts are split automatically at paragraph boundaries. The reply reports the ids of the sent messages; pass one to edit_message to change it later.";

/// What the model is told of `edit_message`.
pub const EDIT_MESSAGE_DESCRIPTION: &'static str = "Replace the text of your own already sent Telegram message. `text` is Markdown, same as send_message, and must fit in a single message.";

/// What the model is told of `send_typing`.
pub const TYPING_DESCRIPTION: &'static str = "Show a typing indicator in a chat for a few seconds. Call it before composing long replies.";

/// What the model is told of a path.
pub const PATH_DESCRIPTION: &'static str = "File path, relative to the workspace directory unless absolute.";

/// What the model is told of the channel to send to.
pub const CHANNEL_DESCRIPTION: &'static str = "Target channel name, exactly as in your channel list — e.g. \"IC\" for a group topic or \"Luna Spirito\" for a DM.";

/// A property of a tool's arguments, with a description where it needs one.
pub open spec fn property(name: Seq<char>, kind: Seq<char>, description: Option<Seq<char>>) -> Seq<
    (Seq<char>, JsonView),
> {
    tg::field(
        name,
        JsonView::Object(tg::field("type"@, JsonView::Text(kind)) + tg::text_field("description"@, description)),
    )
}

/// Schema of a tool.
pub open spec fn tool_schema(
    name: Seq<char>,
    description: Seq<char>,
    properties: Seq<(Seq<char>, JsonView)>,
    required: Seq<Seq<char>>,
) -> JsonView {
    JsonView::Object(
        tg::field("type"@, JsonView::Text("function"@)) + tg::field(
            "function"@,
            JsonView::Object(
                tg::field("name"@, JsonView::Text(name)) + tg::field("description"@, JsonView::Text(description))
                    + tg::field(
                    "parameters"@,
                    JsonView::Object(
                        tg::field("type"@, JsonView::Text("object"@)) + tg::field(
                            "properties"@,
                            JsonView::Object(properties),
                        ) + tg::field(
                            "required"@,
                            JsonView::Array(Seq::new(required.len(), |i: int| JsonView::Text(required[i]))),
                        ),
                    ),
                ),
            ),
        ),
    )
}

/// Schema of `bash`: a command, and how long it may take.
pub open spec fn bash_tool() -> JsonView {
    tool_schema(
        "bash"@,
        BASH_DESCRIPTION@,
        property("command"@, "string"@, Some("Shell command to run."@)) + property(
            "timeout_ms"@,
            "integer"@,
            Some("Optional timeout, 120000 by default, 600000 max."@),
        ),
        seq!["command"@],
    )
}

/// Schema of `read_file`: a path, and which lines.
pub open spec fn read_tool() -> JsonView {
    tool_schema(
        "read_file"@,
        READ_DESCRIPTION@,
        property("path"@, "string"@, Some(PATH_DESCRIPTION@)) + property(
            "offset"@,
            "integer"@,
            Some("1-based first line to read, default 1."@),
        ) + property("limit"@, "integer"@, Some("Max lines to read, default 2000."@)),
        seq!["path"@],
    )
}

/// Schema of `write_file`: a path and the content.
pub open spec fn write_tool() -> JsonView {
    tool_schema(
        "write_file"@,
        WRITE_DESCRIPTION@,
        property("path"@, "string"@, Some(PATH_DESCRIPTION@)) + property(
            "content"@,
            "string"@,
            Some("Full file content."@),
        ),
        seq!["path"@, "content"@],
    )
}

/// Schema of `edit_file`: a path, what to replace and by what, and whether everywhere.
pub open spec fn edit_tool() -> JsonView {
    tool_schema(
        "edit_file"@,
        EDIT_DESCRIPTION@,
        property("path"@, "string"@, Some(PATH_DESCRIPTION@)) + property("old_string"@, "string"@, None) + property(
            "new_string"@,
            "string"@,
            None,
        ) + property("replace_all"@, "boolean"@, Some("Replace every occurrence, default false."@)),
        seq!["path"@, "old_string"@, "new_string"@],
    )
}

/// Schema of `send_message`: a channel and a text, and what it replies to.
pub open spec fn send_message_tool() -> JsonView {
    tool_schema(
        "send_message"@,
        SEND_DESCRIPTION@,
        property("channel"@, "string"@, Some(CHANNEL_DESCRIPTION@)) + property(
            "text"@,
            "string"@,
            Some("Message text, Markdown."@),
        ) + property("reply_to_message_id"@, "integer"@, Some("Optional message to reply to."@)),
        seq!["channel"@, "text"@],
    )
}

/// Schema of `edit_message`: a channel, a message of it, and its new text.
pub open spec fn edit_message_tool() -> JsonView {
    tool_schema(
        "edit_message"@,
        EDIT_MESSAGE_DESCRIPTION@,
        property("channel"@, "string"@, Some("Channel name, exactly as in your channel list."@)) + property(
            "message_id"@,
            "integer"@,
            Some("Id of YOUR message, as reported by send_message."@),
        ) + property("text"@, "string"@, Some("Full replacement text, Markdown."@)),
        seq!["channel"@, "message_id"@, "text"@],
    )
}

/// Schema of `send_typing`: a chat.
pub open spec fn send_typing_tool() -> JsonView {
    tool_schema("send_typing"@, TYPING_DESCRIPTION@, property("chat_id"@, "integer"@, None), seq!["chat_id"@])
}

/// The tools that the model is offered.
pub open spec fn tool_list() -> JsonView {
    JsonView::Array(
        seq![bash_tool(), read_tool(), write_tool(), edit_tool(), send_message_tool(), edit_message_tool()],
    )
}

fn add_property(properties: &mut Vec<(String, Json)>, name: &str, kind: &str, description: Option<&str>)
    ensures
        json::members_view(final(properties)@) == json::members_view(old(properties)@) + property(
            name@,
            kind@,
            tg::opt_view(description),
        ),
{
    let mut p = json::no_members();
    json::put(&mut p, "type", json::text(kind));
    if let Some(d) = description {
        json::put(&mut p, "description", json::text(d));
    }
    proof {
        assert(json::members_view(p@) =~= tg::field("type"@, JsonView::Text(kind@)) + tg::text_field(
            "description"@,
            tg::opt_view(description),
        ));
    }
    json::put(properties, name, json::object(p));
    proof {
        assert(json::members_view(properties@) =~= json::members_view(old(properties)@) + property(
            name@,
            kind@,
            tg::opt_view(description),
        ));
    }
}

fn schema(name: &str, description: &str, properties: Vec<(String, Json)>, required: Vec<String>) -> (r: Json)
    ensures
        r@ == tool_schema(name@, description@, json::members_view(properties@), text::strs(required@)),
{
    let mut needed: Vec<Json> = Vec::new();
    let mut i: usize = 0;
    while i < required.len()
        invariant
            i <= required@.len(),
            needed@.len() == i,
            forall|k: int| 0 <= k < i ==> (#[trigger] needed@[k])@ == JsonView::Text(required@[k]@),
        decreases required@.len() - i,
    {
        needed.push(json::text(required[i].as_str()));
        i += 1;
    }
    let ghost names = text::strs(required@);
    let ghost props = json::members_view(properties@);
    proof {
        assert(json::items_view(needed@) =~= Seq::new(names.len(), |i: int| JsonView::Text(names[i])));
    }
    let mut parameters = json::no_members();
    json::put(&mut parameters, "type", json::text("object"));
    json::put(&mut parameters, "properties", json::object(properties));
    json::put(&mut parameters, "required", json::array(needed));
    proof {
        assert(json::members_view(parameters@) =~= tg::field("type"@, JsonView::Text("object"@)) + tg::field(
            "properties"@,
            JsonView::Object(props),
        ) + tg::field("required"@, JsonView::Array(Seq::new(names.len(), |i: int| JsonView::Text(names[i])))));
    }
    let mut function = json::no_members();
    json::put(&mut function, "name", json::text(name));
    json::put(&mut function, "description", json::text(description));
    json::put(&mut function, "parameters", json::object(parameters));
    let mut tool = json::no_members();
    proof {
        assert(json::members_view(function@) =~= tool_schema(name@, description@, props, names)->Object_0[1].1->Object_0);
    }
    json::put(&mut tool, "type", json::text("function"));
    json::put(&mut tool, "function", json::object(function));
    proof {
        assert(json::members_view(tool@) =~= tool_schema(name@, description@, props, names)->Object_0);
    }
    json::object(tool)
}

fn one(a: &str) -> (r: Vec<String>)
    ensures
        text::strs(r@) == seq![a@],
{
    let mut v: Vec<String> = Vec::new();
    v.push(a.to_owned());
    proof {
        assert(text::strs(v@) =~= seq![a@]);
    }
    v
}

fn two(a: &str, b: &str) -> (r: Vec<String>)
    ensures
        text::strs(r@) == seq![a@, b@],
{
    let mut v: Vec<String> = Vec::new();
    v.push(a.to_owned());
    v.push(b.to_owned());
    proof {
        assert(text::strs(v@) =~= seq![a@, b@]);
    }
    v
}

fn three(a: &str, b: &str, c: &str) -> (r: Vec<String>)
    ensures
        text::strs(r@) == seq![a@, b@, c@],
{
    let mut v: Vec<String> = Vec::new();
    v.push(a.to_owned());
    v.push(b.to_owned());
    v.push(c.to_owned());
    proof {
        assert(text::strs(v@) =~= seq![a@, b@, c@]);
    }
    v
}

/// Schema of `bash`.
pub fn bash_schema() -> (r: Json)
    ensures
        r@ == bash_tool(),
{
    let mut p = json::no_members();
    add_property(&mut p, "command", "string", Some("Shell command to run."));
    add_property(&mut p, "timeout_ms", "integer", Some("Optional timeout, 120000 by default, 600000 max."));
    proof {
        assert(json::members_view(p@) =~= property("command"@, "string"@, Some("Shell command to run."@)) + property(
            "timeout_ms"@,
            "integer"@,
            Some("Optional timeout, 120000 by default, 600000 max."@),
        ));
    }
    schema("bash", BASH_DESCRIPTION, p, one("command"))
}

/// Schema of `read_file`.
pub fn read_schema() -> (r: Json)
    ensures
        r@ == read_tool(),
{
    let mut p = json::no_members();
    add_property(&mut p, "path", "string", Some(PATH_DESCRIPTION));
    add_property(&mut p, "offset", "integer", Some("1-based first line to read, default 1."));
    add_property(&mut p, "limit", "integer", Some("Max lines to read, default 2000."));
    proof {
        assert(json::members_view(p@) =~= property("path"@, "string"@, Some(PATH_DESCRIPTION@)) + property(
            "offset"@,
            "integer"@,
            Some("1-based first line to read, default 1."@),
        ) + property("limit"@, "integer"@, Some("Max lines to read, default 2000."@)));
    }
    schema("read_file", READ_DESCRIPTION, p, one("path"))
}

/// Schema of `write_file`.
pub fn write_schema() -> (r: Json)
    ensures
        r@ == write_tool(),
{
    let mut p = json::no_members();
    add_property(&mut p, "path", "string", Some(PATH_DESCRIPTION));
    add_property(&mut p, "content", "string", Some("Full file content."));
    proof {
        assert(json::members_view(p@) =~= property("path"@, "string"@, Some(PATH_DESCRIPTION@)) + property(
            "content"@,
            "string"@,
            Some("Full file content."@),
        ));
    }
    schema("write_file", WRITE_DESCRIPTION, p, two("path", "content"))
}

/// Schema of `edit_file`.
pub fn edit_schema() -> (r: Json)
    ensures
        r@ == edit_tool(),
{
    let mut p = json::no_members();
    add_property(&mut p, "path", "string", Some(PATH_DESCRIPTION));
    add_property(&mut p, "old_string", "string", None);
    add_property(&mut p, "new_string", "string", None);
    add_property(&mut p, "replace_all", "boolean", Some("Replace every occurrence, default false."));
    proof {
        assert(json::members_view(p@) =~= property("path"@, "string"@, Some(PATH_DESCRIPTION@)) + property(
            "old_string"@,
            "string"@,
            None,
        ) + property("new_string"@, "string"@, None) + property(
            "replace_all"@,
            "boolean"@,
            Some("Replace every occurrence, default false."@),
        ));
    }
    schema("edit_file", EDIT_DESCRIPTION, p, three("path", "old_string", "new_string"))
}

/// Schema of `send_message`.
pub fn send_message_schema() -> (r: Json)
    ensures
        r@ == send_message_tool(),
{
    let mut p = json::no_members();
    add_property(&mut p, "channel", "string", Some(CHANNEL_DESCRIPTION));
    add_property(&mut p, "text", "string", Some("Message text, Markdown."));
    add_property(&mut p, "reply_to_message_id", "integer", Some("Optional message to reply to."));
    proof {
        assert(json::members_view(p@) =~= property("channel"@, "string"@, Some(CHANNEL_DESCRIPTION@)) + property(
            "text"@,
            "string"@,
            Some("Message text, Markdown."@),
        ) + property("reply_to_message_id"@, "integer"@, Some("Optional message to reply to."@)));
    }
    schema("send_message", SEND_DESCRIPTION, p, two("channel", "text"))
}

/// Schema of `edit_message`.
pub fn edit_message_schema() -> (r: Json)
    ensures
        r@ == edit_message_tool(),
{
    let mut p = json::no_members();
    add_property(&mut p, "channel", "string", Some("Channel name, exactly as in your channel list."));
    add_property(&mut p, "message_id", "integer", Some("Id of YOUR message, as reported by send_message."));
    add_property(&mut p, "text", "string", Some("Full replacement text, Markdown."));
    proof {
        assert(json::members_view(p@) =~= property(
            "channel"@,
            "string"@,
            Some("Channel name, exactly as in your channel list."@),
        ) + property("message_id"@, "integer"@, Some("Id of YOUR message, as reported by send_message."@))
            + property("text"@, "string"@, Some("Full replacement text, Markdown."@)));
    }
    schema("edit_message", EDIT_MESSAGE_DESCRIPTION, p, three("channel", "message_id", "text"))
}

/// Schema of `send_typing`. The tool is not offered for now; a model that calls it is served.
pub fn send_typing_schema() -> (r: Json)
    ensures
        r@ == send_typing_tool(),
{
    let mut p = json::no_members();
    add_property(&mut p, "chat_id", "integer", None);
    proof {
        assert(json::members_view(p@) =~= property("chat_id"@, "integer"@, None));
    }
    schema("send_typing", TYPING_DESCRIPTION, p, one("chat_id"))
}

/// The tools that the model is offered.
pub fn schemas() -> (r: Json)
    ensures
        r@ == tool_list(),
{
    let mut all: Vec<Json> = Vec::new();
    all.push(bash_schema());
    all.push(read_schema());
    all.push(write_schema());
    all.push(edit_schema());
    all.push(send_message_schema());
    all.push(edit_message_schema());
    proof {
        assert(json::items_view(all@) =~= tool_list()->Array_0);
    }
    json::array(all)
}

// ---------------------------------------------------------------------------------------------
// Arguments
// ---------------------------------------------------------------------------------------------

/// An argument, as far as tools read it.
#[derive(Debug)]
pub enum ArgValue {
    Text(String),
    /// A number, as a signed and as an unsigned integer where it is one.
    Number { signed: Option<i64>, unsigned: Option<u64> },
    Flag(bool),
    Other,
}

/// What an [`ArgValue`] holds.
pub enum ArgView {
    Text(Seq<char>),
    Number(Option<i64>, Option<u64>),
    Flag(bool),
    Other,
}

impl View for ArgValue {
    type V = ArgView;

    open spec fn view(&self) -> ArgView {
        match self {
            ArgValue::Text(s) => ArgView::Text(s@),
            ArgValue::Number { signed, unsigned } => ArgView::Number(*signed, *unsigned),
            ArgValue::Flag(b) => ArgView::Flag(*b),
            ArgValue::Other => ArgView::Other,
        }
    }
}

/// What arguments hold.
pub open spec fn args_view(args: Seq<(String, ArgValue)>) -> Seq<(Seq<char>, ArgView)> {
    Seq::new(args.len(), |i: int| (args[i].0@, args[i].1@))
}

/// The arguments of a call: the members of an object, or something that is none.
#[derive(Debug)]
pub enum Args {
    NotAnObject,
    Members(Vec<(String, ArgValue)>),
}

/// What [`Args`] holds.
pub enum ArgsView {
    NotAnObject,
    Members(Seq<(Seq<char>, ArgView)>),
}

impl View for Args {
    type V = ArgsView;

    open spec fn view(&self) -> ArgsView {
        match self {
            Args::NotAnObject => ArgsView::NotAnObject,
            Args::Members(m) => ArgsView::Members(args_view(m@)),
        }
    }
}

/// The argument of that name.
pub open spec fn arg(args: Seq<(Seq<char>, ArgView)>, key: Seq<char>) -> Option<ArgView>
    decreases args.len(),
{
    if args.len() == 0 {
        None
    } else if args[0].0 == key {
        Some(args[0].1)
    } else {
        arg(args.drop_first(), key)
    }
}

/// The argument of that name, where it is a text.
pub open spec fn text_arg(args: Seq<(Seq<char>, ArgView)>, key: Seq<char>) -> Option<Seq<char>> {
    match arg(args, key) {
        Some(ArgView::Text(s)) => Some(s),
        _ => None,
    }
}

/// The argument of that name, where it is a signed integer.
pub open spec fn signed_arg(args: Seq<(Seq<char>, ArgView)>, key: Seq<char>) -> Option<i64> {
    match arg(args, key) {
        Some(ArgView::Number(n, _)) => n,
        _ => None,
    }
}

/// The argument of that name, where it is an unsigned integer.
pub open spec fn unsigned_arg(args: Seq<(Seq<char>, ArgView)>, key: Seq<char>) -> Option<u64> {
    match arg(args, key) {
        Some(ArgView::Number(_, n)) => n,
        _ => None,
    }
}

/// Whether the argument of that name is set.
pub open spec fn flag_arg(args: Seq<(Seq<char>, ArgView)>, key: Seq<char>) -> bool {
    match arg(args, key) {
        Some(ArgView::Flag(b)) => b,
        _ => false,
    }
}

fn find_arg<'v>(args: &'v Vec<(String, ArgValue)>, key: &str) -> (r: Option<&'v ArgValue>)
    ensures
        match r {
            Some(v) => arg(args_view(args@), key@) == Some(v@),
            None => arg(args_view(args@), key@) is None,
        },
{
    let ghost all = args_view(args@);
    let mut i: usize = 0;
    proof {
        assert(all.skip(0) =~= all);
    }
    while i < args.len()
        invariant
            i <= args@.len(),
            all == args_view(args@),
            arg(all, key@) == arg(all.skip(i as int), key@),
        decreases args@.len() - i,
    {
        proof {
            assert(all.skip(i as int)[0] == (args@[i as int].0@, args@[i as int].1@));
            assert(all.skip(i as int).drop_first() =~= all.skip(i + 1));
        }
        if str_eq(args[i].0.as_str(), key) {
            return Some(&args[i].1);
        }
        i += 1;
    }
    None
}

fn str_arg<'v>(args: &'v Vec<(String, ArgValue)>, key: &str) -> (r: Option<&'v str>)
    ensures
        tg::opt_view(r) == text_arg(args_view(args@), key@),
{
    match find_arg(args, key) {
        Some(ArgValue::Text(s)) => Some(s.as_str()),
        _ => None,
    }
}

fn i64_arg(args: &Vec<(String, ArgValue)>, key: &str) -> (r: Option<i64>)
    ensures
        r == signed_arg(args_view(args@), key@),
{
    match find_arg(args, key) {
        Some(ArgValue::Number { signed, .. }) => *signed,
        _ => None,
    }
}

fn u64_arg(args: &Vec<(String, ArgValue)>, key: &str) -> (r: Option<u64>)
    ensures
        r == unsigned_arg(args_view(args@), key@),
{
    match find_arg(args, key) {
        Some(ArgValue::Number { unsigned, .. }) => *unsigned,
        _ => None,
    }
}

fn bool_arg(args: &Vec<(String, ArgValue)>, key: &str) -> (r: bool)
    ensures
        r == flag_arg(args_view(args@), key@),
{
    match find_arg(args, key) {
        Some(ArgValue::Flag(b)) => *b,
        _ => false,
    }
}

/// What `serde_json` reads a text as: the members of an object, as far as tools read them, nothing
/// for another value, or what is wrong with the text.
pub uninterp spec fn json_members(raw: Seq<char>) -> Result<Option<Seq<(Seq<char>, ArgView)>>, Seq<char>>;

/// What members that were read, or not, hold.
pub open spec fn members_read(r: Result<Option<Vec<(String, ArgValue)>>, String>) -> Result<
    Option<Seq<(Seq<char>, ArgView)>>,
    Seq<char>,
> {
    match r {
        Ok(Some(m)) => Ok(Some(args_view(m@))),
        Ok(None) => Ok(None),
        Err(e) => Err(e@),
    }
}

/// `serde_json::from_str` into a `serde_json::Value`, whose members are carried over variant by
/// variant. What is read is named and nothing else is said of it.
#[verifier::external_body]
fn read_members(raw: &str) -> (r: Result<Option<Vec<(String, ArgValue)>>, String>)
    ensures
        members_read(r) == json_members(raw@),
{
    let value: serde_json::Value = serde_json::from_str(raw).map_err(|e| e.to_string())?;
    let serde_json::Value::Object(map) = value else { return Ok(None) };
    let value_of = |v| match v {
        serde_json::Value::String(s) => ArgValue::Text(s),
        serde_json::Value::Number(n) => ArgValue::Number { signed: n.as_i64(), unsigned: n.as_u64() },
        serde_json::Value::Bool(b) => ArgValue::Flag(b),
        serde_json::Value::Null => ArgValue::Other,
        serde_json::Value::Array(_) => ArgValue::Other,
        serde_json::Value::Object(_) => ArgValue::Other,
    };
    Ok(Some(map.into_iter().map(|(name, v)| (name, value_of(v))).collect()))
}

/// The arguments that were read, or what is said of a text that is not JSON.
pub open spec fn arguments_of(read: Result<Option<Seq<(Seq<char>, ArgView)>>, Seq<char>>) -> Result<
    ArgsView,
    Seq<char>,
> {
    match read {
        Ok(Some(m)) => Ok(ArgsView::Members(m)),
        Ok(None) => Ok(ArgsView::NotAnObject),
        Err(e) => Err("arguments were not valid JSON: "@ + e),
    }
}

/// What arguments that were read, or not, hold.
pub open spec fn parsed_view(r: Result<Args, String>) -> Result<ArgsView, Seq<char>> {
    match r {
        Ok(args) => Ok(args@),
        Err(e) => Err(e@),
    }
}

/// The arguments that were read, or what is said of a text that is not JSON.
pub fn arguments_from(read: Result<Option<Vec<(String, ArgValue)>>, String>) -> (r: Result<Args, String>)
    ensures
        parsed_view(r) == arguments_of(members_read(read)),
{
    match read {
        Ok(Some(m)) => Ok(Args::Members(m)),
        Ok(None) => Ok(Args::NotAnObject),
        Err(e) => {
            let mut message = "arguments were not valid JSON: ".to_owned();
            message.append(e.as_str());
            Err(message)
        },
    }
}

/// Parse raw model-produced arguments; invalid JSON is reported back to the model instead of
/// crashing the turn.
pub fn parse_arguments(raw: &str) -> (r: Result<Args, String>)
    ensures
        parsed_view(r) == arguments_of(json_members(raw@)),
{
    arguments_from(read_members(raw))
}

// ---------------------------------------------------------------------------------------------
// Planning
// ---------------------------------------------------------------------------------------------

/// What a call comes to: an answer right away, or something to do outside first.
#[derive(Debug)]
pub enum ToolStep {
    Answer(String),
    Bash { command: String, timeout_ms: u64 },
    ReadFile { path: String, offset: usize, limit: usize },
    WriteFile { path: String, content: String },
    EditFile { path: String, snippet: String, new: String, all: bool },
    SendMessage(Delivery),
    EditMessage(Correction),
    SendTyping { chat_id: i64 },
}

/// A message on its way, chunk by chunk. The Markdown source is split and each chunk is rendered
/// separately: every chunk's HTML is balanced on its own, so a construct spanning a split degrades
/// to literal text instead of a rejected message.
#[derive(Debug)]
pub struct Delivery {
    pub key: Key,
    pub channel: String,
    pub chunks: Vec<String>,
    pub reply_to: Option<i64>,
    /// Ids of the chunks that were sent.
    pub sent: Vec<i64>,
}

/// A change of a message that was sent.
#[derive(Debug)]
pub struct Correction {
    pub key: Key,
    pub channel: String,
    pub message_id: i64,
    pub text: String,
}

/// What a [`ToolStep`] holds.
pub enum StepView {
    Answer(Seq<char>),
    Bash(Seq<char>, u64),
    ReadFile(Seq<char>, usize, usize),
    WriteFile(Seq<char>, Seq<char>),
    EditFile(Seq<char>, Seq<char>, Seq<char>, bool),
    SendMessage(DeliveryView),
    EditMessage(CorrectionView),
    SendTyping(i64),
}

/// What a [`Delivery`] holds.
pub struct DeliveryView {
    pub key: Key,
    pub channel: Seq<char>,
    pub chunks: Seq<Seq<char>>,
    pub reply_to: Option<i64>,
    pub sent: Seq<i64>,
}

/// What a [`Correction`] holds.
pub struct CorrectionView {
    pub key: Key,
    pub channel: Seq<char>,
    pub message_id: i64,
    pub text: Seq<char>,
}

impl View for Delivery {
    type V = DeliveryView;

    open spec fn view(&self) -> DeliveryView {
        DeliveryView {
            key: self.key,
            channel: self.channel@,
            chunks: text::strs(self.chunks@),
            reply_to: self.reply_to,
            sent: self.sent@,
        }
    }
}

impl View for Correction {
    type V = CorrectionView;

    open spec fn view(&self) -> CorrectionView {
        CorrectionView {
            key: self.key,
            channel: self.channel@,
            message_id: self.message_id,
            text: self.text@,
        }
    }
}

impl View for ToolStep {
    type V = StepView;

    open spec fn view(&self) -> StepView {
        match self {
            ToolStep::Answer(s) => StepView::Answer(s@),
            ToolStep::Bash { command, timeout_ms } => StepView::Bash(command@, *timeout_ms),
            ToolStep::ReadFile { path, offset, limit } => StepView::ReadFile(path@, *offset, *limit),
            ToolStep::WriteFile { path, content } => StepView::WriteFile(path@, content@),
            ToolStep::EditFile { path, snippet, new, all } => StepView::EditFile(path@, snippet@, new@, *all),
            ToolStep::SendMessage(d) => StepView::SendMessage(d@),
            ToolStep::EditMessage(c) => StepView::EditMessage(c@),
            ToolStep::SendTyping { chat_id } => StepView::SendTyping(*chat_id),
        }
    }
}

/// `tg` is `None` where tools may keep notes on disk but must not be able to message anyone.
pub struct Tools<'a> {
    pub tg: Option<&'a Telegram>,
    pub channels: &'a Channels,
    pub workspace: &'a str,
}

/// Where tools work: whether Telegram can be reached, the channels, and the workspace.
pub struct ToolsView {
    pub online: bool,
    pub channels: Seq<(Key, channels::ChannelView)>,
    pub workspace: Seq<char>,
}

impl<'a> View for Tools<'a> {
    type V = ToolsView;

    open spec fn view(&self) -> ToolsView {
        ToolsView {
            online: self.tg is Some,
            channels: self.channels@.entries,
            workspace: self.workspace@,
        }
    }
}

/// What is said of arguments that are missing.
pub open spec fn missing(keys: Seq<char>) -> StepView {
    StepView::Answer("Error: missing or invalid argument(s): "@ + keys + "."@)
}

/// What is said where Telegram cannot be reached.
pub open spec fn offline() -> StepView {
    StepView::Answer("Error: Telegram tools are unavailable right now."@)
}

/// What is said of a channel that is not known. It names what is known so the model can
/// self-correct.
pub open spec fn unknown_channel(s: Seq<(Key, channels::ChannelView)>, name: Seq<char>) -> Seq<char> {
    "Error: unknown channel `"@ + name + "`. Known channels: "@ + search::join(
        channels::sorted_names(channels::names_of(s)),
        ", "@,
    ) + "."@
}

/// A number as an index, or the largest one.
pub open spec fn as_index(n: u64) -> usize {
    if n <= usize::MAX {
        n as usize
    } else {
        usize::MAX
    }
}

/// A number of lines from one on, `default` where it is not given.
pub open spec fn line_number(given: Option<u64>, default: u64) -> usize {
    let n = match given {
        Some(n) => n,
        None => default,
    };
    as_index(
        if n < 1 {
            1
        } else {
            n
        },
    )
}

/// What a call of `bash` comes to: a command that may take no longer than the most allowed.
pub open spec fn bash_plan(args: Seq<(Seq<char>, ArgView)>) -> StepView {
    match text_arg(args, "command"@) {
        None => missing("command"@),
        Some(command) => StepView::Bash(
            command,
            match unsigned_arg(args, "timeout_ms"@) {
                Some(ms) => if ms < BASH_MAX_TIMEOUT_MS {
                    ms
                } else {
                    BASH_MAX_TIMEOUT_MS
                },
                None => BASH_DEFAULT_TIMEOUT_MS,
            },
        ),
    }
}

/// What a call of `read_file` comes to: a page of a file.
pub open spec fn read_plan(t: ToolsView, args: Seq<(Seq<char>, ArgView)>) -> StepView {
    match text_arg(args, "path"@) {
        None => missing("path"@),
        Some(path) => StepView::ReadFile(
            paths::join(t.workspace, path),
            line_number(unsigned_arg(args, "offset"@), 1),
            line_number(unsigned_arg(args, "limit"@), READ_MAX_LINES),
        ),
    }
}

/// What a call of `write_file` comes to.
pub open spec fn write_plan(t: ToolsView, args: Seq<(Seq<char>, ArgView)>) -> StepView {
    match (text_arg(args, "path"@), text_arg(args, "content"@)) {
        (Some(path), Some(content)) => StepView::WriteFile(paths::join(t.workspace, path), content),
        _ => missing("path, content"@),
    }
}

/// What a call of `edit_file` comes to; a snippet is not replaced by itself.
pub open spec fn edit_plan(t: ToolsView, args: Seq<(Seq<char>, ArgView)>) -> StepView {
    match (text_arg(args, "path"@), text_arg(args, "old_string"@), text_arg(args, "new_string"@)) {
        (Some(path), Some(snippet), Some(new)) => if snippet == new {
            StepView::Answer("Error: old_string and new_string are identical."@)
        } else {
            StepView::EditFile(paths::join(t.workspace, path), snippet, new, flag_arg(args, "replace_all"@))
        },
        _ => missing("path, old_string, new_string"@),
    }
}

/// What a call of `send_message` comes to: a text in chunks, on its way to a channel that is known.
pub open spec fn send_plan(t: ToolsView, args: Seq<(Seq<char>, ArgView)>) -> StepView {
    match (text_arg(args, "text"@), text_arg(args, "channel"@)) {
        (Some(text), Some(channel)) => match channels::resolved(t.channels, channel) {
            None => StepView::Answer(unknown_channel(t.channels, channel)),
            Some(key) => if !t.online {
                offline()
            } else {
                StepView::SendMessage(
                    DeliveryView {
                        key,
                        channel,
                        chunks: output::chunks(text, TELEGRAM_LIMIT as nat),
                        reply_to: signed_arg(args, "reply_to_message_id"@),
                        sent: Seq::empty(),
                    },
                )
            },
        },
        _ => missing("channel, text"@),
    }
}

/// What is said of a text that is too large for a single message.
pub open spec fn too_large(bytes: nat) -> Seq<char> {
    "Error: text is "@ + number::dec(bytes) + " bytes, a single message holds at most "@ + number::dec(
        TELEGRAM_LIMIT as nat,
    ) + ". Shorten it or send a new message instead."@
}

/// What a call of `edit_message` comes to: a text that a single message holds.
pub open spec fn edit_message_plan(t: ToolsView, args: Seq<(Seq<char>, ArgView)>) -> StepView {
    match (text_arg(args, "text"@), text_arg(args, "channel"@), signed_arg(args, "message_id"@)) {
        (Some(text), Some(channel), Some(message_id)) => match channels::resolved(t.channels, channel) {
            None => StepView::Answer(unknown_channel(t.channels, channel)),
            Some(key) => if !t.online {
                offline()
            } else if text::size(text) > TELEGRAM_LIMIT {
                StepView::Answer(too_large(text::size(text)))
            } else {
                StepView::EditMessage(CorrectionView { key, channel, message_id, text })
            },
        },
        _ => missing("channel, message_id, text"@),
    }
}

/// What a call of `send_typing` comes to.
pub open spec fn typing_plan(t: ToolsView, args: Seq<(Seq<char>, ArgView)>) -> StepView {
    if !t.online {
        offline()
    } else {
        match signed_arg(args, "chat_id"@) {
            Some(chat_id) => StepView::SendTyping(chat_id),
            None => missing("chat_id"@),
        }
    }
}

/// What a call of the tool `name` comes to.
pub open spec fn plan(t: ToolsView, name: Seq<char>, args: ArgsView) -> StepView {
    match args {
        ArgsView::NotAnObject => StepView::Answer("Error: tool arguments must be a JSON object."@),
        ArgsView::Members(m) => if name == "bash"@ {
            bash_plan(m)
        } else if name == "read_file"@ {
            read_plan(t, m)
        } else if name == "write_file"@ {
            write_plan(t, m)
        } else if name == "edit_file"@ {
            edit_plan(t, m)
        } else if name == "send_message"@ {
            send_plan(t, m)
        } else if name == "edit_message"@ {
            edit_message_plan(t, m)
        } else if name == "send_typing"@ {
            typing_plan(t, m)
        } else {
            StepView::Answer("Error: unknown tool `"@ + name + "`."@)
        },
    }
}

/// What a call with these raw arguments comes to, where `read` is what they read as.
pub open spec fn dispatched(
    t: ToolsView,
    name: Seq<char>,
    read: Result<Option<Seq<(Seq<char>, ArgView)>>, Seq<char>>,
) -> StepView {
    match arguments_of(read) {
        Ok(args) => plan(t, name, args),
        Err(e) => StepView::Answer("Error: "@ + e),
    }
}

/// Without Telegram no tool messages anyone: whatever is called, nothing is sent, changed or shown
/// as typing.
pub proof fn law_offline_tools_are_silent(t: ToolsView, name: Seq<char>, args: ArgsView)
    requires
        !t.online,
    ensures
        !(plan(t, name, args) is SendMessage),
        !(plan(t, name, args) is EditMessage),
        !(plan(t, name, args) is SendTyping),
{
}

/// Whatever is sent goes to a channel that is known, in one or more chunks that a message holds.
pub proof fn law_messages_go_to_known_channels(t: ToolsView, name: Seq<char>, args: ArgsView)
    ensures
        plan(t, name, args) matches StepView::SendMessage(d) ==> {
            &&& channels::resolved(t.channels, d.channel) == Some(d.key)
            &&& d.pending()
            &&& forall|i: int| 0 <= i < d.chunks.len() ==> text::size(#[trigger] d.chunks[i]) <= TELEGRAM_LIMIT
        },
        plan(t, name, args) matches StepView::EditMessage(c) ==> {
            &&& channels::resolved(t.channels, c.channel) == Some(c.key)
            &&& text::size(c.text) <= TELEGRAM_LIMIT
        },
{
    if let ArgsView::Members(m) = args {
        if let Some(text) = text_arg(m, "text"@) {
            lemma_messages_are_splittable(text);
            output::law_chunks_fit(text, TELEGRAM_LIMIT as nat);
        }
    }
}

proof fn lemma_messages_are_splittable(s: Seq<char>)
    ensures
        output::splittable(s, TELEGRAM_LIMIT as nat),
{
}

/// What is said of arguments that are missing.
pub fn err_arg(keys: &str) -> (r: String)
    ensures
        StepView::Answer(r@) == missing(keys@),
{
    let mut e = "Error: missing or invalid argument(s): ".to_owned();
    e.append(keys);
    e.append(".");
    e
}

fn answer(s: &str) -> (r: ToolStep)
    ensures
        r@ == StepView::Answer(s@),
{
    ToolStep::Answer(s.to_owned())
}

fn at_least_one(given: Option<u64>, default: u64) -> (r: usize)
    ensures
        r == line_number(given, default),
{
    let n: u64 = match given {
        Some(n) => n,
        None => default,
    };
    let m: u64 = if n < 1 { 1 } else { n };
    if m <= usize::MAX as u64 {
        m as usize
    } else {
        usize::MAX
    }
}

impl<'a> Tools<'a> {
    /// What a call of the tool `name` comes to.
    pub fn execute(&self, name: &str, args: &Args) -> (r: ToolStep)
        ensures
            r@ == plan(self@, name@, args@),
    {
        let m = match args {
            Args::Members(m) => m,
            Args::NotAnObject => {
                return answer("Error: tool arguments must be a JSON object.");
            },
        };
        if str_eq(name, "bash") {
            self.bash(m)
        } else if str_eq(name, "read_file") {
            self.read_file(m)
        } else if str_eq(name, "write_file") {
            self.write_file(m)
        } else if str_eq(name, "edit_file") {
            self.edit_file(m)
        } else if str_eq(name, "send_message") {
            self.send_message(m)
        } else if str_eq(name, "edit_message") {
            self.edit_message(m)
        } else if str_eq(name, "send_typing") {
            self.send_typing(m)
        } else {
            let mut e = "Error: unknown tool `".to_owned();
            e.append(name);
            e.append("`.");
            ToolStep::Answer(e)
        }
    }

    /// What a call of the model comes to.
    pub fn dispatch(&self, call: &ToolCall) -> (r: ToolStep)
        ensures
            r@ == dispatched(self@, call.name@, json_members(call.arguments@)),
    {
        self.dispatch_read(call.name.as_str(), parse_arguments(call.arguments.as_str()))
    }

    /// What a call of the tool `name` comes to, where `parsed` is what its arguments were read as.
    pub fn dispatch_read(&self, name: &str, parsed: Result<Args, String>) -> (r: ToolStep)
        ensures
            r@ == (match parsed_view(parsed) {
                Ok(args) => plan(self@, name@, args),
                Err(e) => StepView::Answer("Error: "@ + e),
            }),
    {
        match parsed {
            Ok(args) => self.execute(name, &args),
            Err(e) => {
                let mut message = "Error: ".to_owned();
                message.append(e.as_str());
                ToolStep::Answer(message)
            },
        }
    }

    fn bash(&self, args: &Vec<(String, ArgValue)>) -> (r: ToolStep)
        ensures
            r@ == bash_plan(args_view(args@)),
    {
        let command = match str_arg(args, "command") {
            Some(c) => c,
            None => {
                return ToolStep::Answer(err_arg("command"));
            },
        };
        let timeout_ms: u64 = match u64_arg(args, "timeout_ms") {
            Some(ms) => if ms < BASH_MAX_TIMEOUT_MS {
                ms
            } else {
                BASH_MAX_TIMEOUT_MS
            },
            None => BASH_DEFAULT_TIMEOUT_MS,
        };
        ToolStep::Bash { command: command.to_owned(), timeout_ms }
    }

    fn read_file(&self, args: &Vec<(String, ArgValue)>) -> (r: ToolStep)
        ensures
            r@ == read_plan(self@, args_view(args@)),
    {
        let path = match str_arg(args, "path") {
            Some(p) => p,
            None => {
                return ToolStep::Answer(err_arg("path"));
            },
        };
        let offset: usize = at_least_one(u64_arg(args, "offset"), 1);
        let limit: usize = at_least_one(u64_arg(args, "limit"), READ_MAX_LINES);
        ToolStep::ReadFile { path: self.resolve(path), offset, limit }
    }

    fn write_file(&self, args: &Vec<(String, ArgValue)>) -> (r: ToolStep)
        ensures
            r@ == write_plan(self@, args_view(args@)),
    {
        match (str_arg(args, "path"), str_arg(args, "content")) {
            (Some(path), Some(content)) => ToolStep::WriteFile {
                path: self.resolve(path),
                content: content.to_owned(),
            },
            _ => ToolStep::Answer(err_arg("path, content")),
        }
    }

    fn edit_file(&self, args: &Vec<(String, ArgValue)>) -> (r: ToolStep)
        ensures
            r@ == edit_plan(self@, args_view(args@)),
    {
        match (str_arg(args, "path"), str_arg(args, "old_string"), str_arg(args, "new_string")) {
            (Some(path), Some(snippet), Some(new)) => {
                let all = bool_arg(args, "replace_all");
                if str_eq(snippet, new) {
                    return answer("Error: old_string and new_string are identical.");
                }
                ToolStep::EditFile {
                    path: self.resolve(path),
                    snippet: snippet.to_owned(),
                    new: new.to_owned(),
                    all,
                }
            },
            _ => ToolStep::Answer(err_arg("path, old_string, new_string")),
        }
    }

    fn send_message(&self, args: &Vec<(String, ArgValue)>) -> (r: ToolStep)
        ensures
            r@ == send_plan(self@, args_view(args@)),
    {
        match (str_arg(args, "text"), str_arg(args, "channel")) {
            (Some(text), Some(channel)) => {
                let key: Key = match self.channel(channel) {
                    Ok(key) => key,
                    Err(e) => {
                        return ToolStep::Answer(e);
                    },
                };
                if self.tg.is_none() {
                    return answer("Error: Telegram tools are unavailable right now.");
                }
                proof {
                    lemma_messages_are_splittable(text@);
                }
                let d = Delivery {
                    key,
                    channel: channel.to_owned(),
                    chunks: split_text(text, TELEGRAM_LIMIT),
                    reply_to: i64_arg(args, "reply_to_message_id"),
                    sent: Vec::new(),
                };
                ToolStep::SendMessage(d)
            },
            _ => ToolStep::Answer(err_arg("channel, text")),
        }
    }

    fn edit_message(&self, args: &Vec<(String, ArgValue)>) -> (r: ToolStep)
        ensures
            r@ == edit_message_plan(self@, args_view(args@)),
    {
        match (str_arg(args, "text"), str_arg(args, "channel"), i64_arg(args, "message_id")) {
            (Some(text), Some(channel), Some(message_id)) => {
                let key: Key = match self.channel(channel) {
                    Ok(key) => key,
                    Err(e) => {
                        return ToolStep::Answer(e);
                    },
                };
                if self.tg.is_none() {
                    return answer("Error: Telegram tools are unavailable right now.");
                }
                let bytes: usize = text_size(text);
                if bytes > TELEGRAM_LIMIT {
                    let mut e = "Error: text is ".to_owned();
                    let n = dec_unsigned(bytes as u128);
                    e.append(n.as_str());
                    e.append(" bytes, a single message holds at most ");
                    let most = dec_unsigned(TELEGRAM_LIMIT as u128);
                    e.append(most.as_str());
                    e.append(". Shorten it or send a new message instead.");
                    return ToolStep::Answer(e);
                }
                ToolStep::EditMessage(
                    Correction { key, channel: channel.to_owned(), message_id, text: text.to_owned() },
                )
            },
            _ => ToolStep::Answer(err_arg("channel, message_id, text")),
        }
    }

    /// Live resolution against the registry (not the frozen session head); the error names what is
    /// known so the model can self-correct.
    pub fn channel(&self, name: &str) -> (r: Result<Key, String>)
        ensures
            match channels::resolved(self@.channels, name@) {
                Some(key) => r == Ok::<Key, String>(key),
                None => r is Err && r->Err_0@ == unknown_channel(self@.channels, name@),
            },
    {
        match self.channels.resolve(name) {
            Some(key) => Ok(key),
            None => {
                let mut e = "Error: unknown channel `".to_owned();
                e.append(name);
                e.append("`. Known channels: ");
                let names = self.channels.names();
                let list = joined(&names, ", ");
                e.append(list.as_str());
                e.append(".");
                Err(e)
            },
        }
    }

    fn send_typing(&self, args: &Vec<(String, ArgValue)>) -> (r: ToolStep)
        ensures
            r@ == typing_plan(self@, args_view(args@)),
    {
        if self.tg.is_none() {
            return answer("Error: Telegram tools are unavailable right now.");
        }
        match i64_arg(args, "chat_id") {
            Some(chat_id) => ToolStep::SendTyping { chat_id },
            None => ToolStep::Answer(err_arg("chat_id")),
        }
    }

    /// A path of the workspace, unless it is absolute.
    pub fn resolve(&self, path: &str) -> (r: String)
        ensures
            r@ == paths::join(self.workspace@, path@),
    {
        path_join(self.workspace, path)
    }
}

// ---------------------------------------------------------------------------------------------
// Reports
// ---------------------------------------------------------------------------------------------

/// How a command ended.
#[derive(Debug)]
pub enum Exit {
    Success,
    /// With an exit code, unless a signal ended it.
    Code(Option<i32>),
    /// It could not be waited for.
    Lost(String),
}

/// What running a command came to.
#[derive(Debug)]
pub enum BashOutcome {
    NotSpawned(String),
    TimedOut,
    Finished { stdout: Vec<u8>, stderr: Vec<u8>, exit: Exit },
}

/// What a command wrote.
pub open spec fn streams(stdout: Seq<u8>, stderr: Seq<u8>) -> Seq<char> {
    output::stream_text(stdout, ""@) + (if stderr.len() == 0 {
        Seq::empty()
    } else {
        "\n"@ + output::stream_text(stderr, "[stderr]\n"@)
    })
}

/// What is reported of a command.
pub open spec fn bash_result(timeout_ms: u64, outcome: BashOutcome) -> Seq<char> {
    match outcome {
        BashOutcome::NotSpawned(e) => "Error: failed to spawn bash: "@ + e@,
        BashOutcome::TimedOut => "[timed out after "@ + number::dec(timeout_ms as nat) + "ms]"@,
        BashOutcome::Finished { stdout, stderr, exit } => streams(stdout@, stderr@) + (match exit {
            Exit::Success => Seq::empty(),
            Exit::Code(code) => "\n[exit code: "@ + number::dec_int(
                match code {
                    Some(c) => c as int,
                    None => -1,
                },
            ) + "]"@,
            Exit::Lost(e) => "\nError: "@ + e@,
        }),
    }
}

/// What is reported of a command.
pub fn bash_report(timeout_ms: u64, outcome: &BashOutcome) -> (r: String)
    ensures
        r@ == bash_result(timeout_ms, *outcome),
{
    match outcome {
        BashOutcome::NotSpawned(e) => {
            let mut r = "Error: failed to spawn bash: ".to_owned();
            r.append(e.as_str());
            r
        },
        BashOutcome::TimedOut => {
            let mut r = "[timed out after ".to_owned();
            let n = dec_unsigned(timeout_ms as u128);
            r.append(n.as_str());
            r.append("ms]");
            r
        },
        BashOutcome::Finished { stdout, stderr, exit } => {
            let mut r = render_stream(stdout.as_slice(), "");
            if stderr.len() > 0 {
                r.append("\n");
                let errors = render_stream(stderr.as_slice(), "[stderr]\n");
                r.append(errors.as_str());
            }
            proof {
                assert(r@ =~= streams(stdout@, stderr@));
            }
            match exit {
                Exit::Success => {},
                Exit::Code(code) => {
                    r.append("\n[exit code: ");
                    let c: i64 = match code {
                        Some(c) => *c as i64,
                        None => -1,
                    };
                    let n = dec_signed(c);
                    r.append(n.as_str());
                    r.append("]");
                },
                Exit::Lost(e) => {
                    r.append("\nError: ");
                    r.append(e.as_str());
                },
            }
            proof {
                assert(r@ =~= bash_result(timeout_ms, *outcome));
            }
            r
        },
    }
}

/// What is reported of something that failed outside.
pub fn error_report(e: &str) -> (r: String)
    ensures
        r@ == "Error: "@ + e@,
{
    let mut r = "Error: ".to_owned();
    r.append(e);
    r
}

/// What is reported of a file that was to be read: a page of it.
pub fn read_report(outcome: Result<Vec<u8>, String>, offset: usize, limit: usize) -> (r: String)
    requires
        offset >= 1,
    ensures
        r@ == (match outcome {
            Ok(bytes) => output::page_of(crate::unicode::lossy(bytes@), offset as nat, limit as nat),
            Err(e) => "Error: "@ + e@,
        }),
{
    match outcome {
        Ok(bytes) => output::render_read(bytes.as_slice(), offset, limit),
        Err(e) => error_report(e.as_str()),
    }
}

/// What is reported of a file that was to be written.
pub fn write_report(path: &str, content: &str, outcome: Result<(), String>) -> (r: String)
    ensures
        r@ == (match outcome {
            Ok(_) => "Wrote "@ + number::dec(text::size(content@)) + " bytes to "@ + path@ + "."@,
            Err(e) => "Error: "@ + e@,
        }),
{
    match outcome {
        Ok(_) => {
            let mut r = "Wrote ".to_owned();
            let n = dec_unsigned(text_size(content) as u128);
            r.append(n.as_str());
            r.append(" bytes to ");
            r.append(path);
            r.append(".");
            r
        },
        Err(e) => error_report(e.as_str()),
    }
}

/// What is reported of a file that was to be edited.
pub fn edit_report(outcome: Result<(), String>) -> (r: String)
    ensures
        r@ == (match outcome {
            Ok(_) => "Edited."@,
            Err(e) => "Error: "@ + e@,
        }),
{
    match outcome {
        Ok(_) => "Edited.".to_owned(),
        Err(e) => error_report(e.as_str()),
    }
}

/// What is reported of a typing indicator.
pub fn typing_report(outcome: Result<(), String>) -> (r: String)
    ensures
        r@ == (match outcome {
            Ok(_) => "Typing indicator shown."@,
            Err(e) => "Error: "@ + e@,
        }),
{
    match outcome {
        Ok(_) => "Typing indicator shown.".to_owned(),
        Err(e) => error_report(e.as_str()),
    }
}

/// Ids of messages, each behind a number sign.
pub open spec fn marked(ids: Seq<i64>) -> Seq<Seq<char>> {
    Seq::new(ids.len(), |i: int| "#"@ + number::dec_int(ids[i] as int))
}

impl DeliveryView {
    /// What is reported once all chunks are sent.
    pub open spec fn report(self) -> Seq<char> {
        "Sent "@ + number::dec(self.chunks.len()) + " message(s) to "@ + self.channel + ": "@ + search::join(
            marked(self.sent),
            ", "@,
        ) + "."@
    }

    /// Whether chunks are left to send.
    pub open spec fn pending(self) -> bool {
        self.sent.len() < self.chunks.len()
    }

    /// The chunk to send next.
    pub open spec fn next(self) -> Seq<char> {
        self.chunks[self.sent.len() as int]
    }
}

impl Delivery {
    /// The request that sends the next chunk, rendered.
    pub fn request(&self, tg: &Telegram) -> (r: Request)
        requires
            self@.pending(),
        ensures
            r.calls(
                *tg,
                "sendMessage"@,
                tg::send_body(
                    self.key.0,
                    self.key.1,
                    markdown::rendered(self@.next(), markdown::markdown_events(self@.next())),
                    Some("HTML"@),
                    self.reply_to,
                ),
            ),
    {
        let n: usize = self.sent.len();
        let html = render_markdown(self.chunks[n].as_str());
        tg.send_message(self.key.0, self.key.1, html.as_str(), Some("HTML"), self.reply_to)
    }

    /// Take note of what sending the next chunk came to: a line for the log where it was sent, and
    /// what is reported once all are sent or one has failed.
    pub fn advance(&mut self, outcome: Result<i64, String>, registry: &Channels, now: i64) -> (r: (
        Option<LogLine>,
        Option<String>,
    ))
        requires
            old(self)@.pending(),
            registry.wf(),
        ensures
            match outcome {
                Ok(id) => {
                    &&& final(self)@ == (DeliveryView { sent: old(self)@.sent.push(id), ..old(self)@ })
                    &&& channels::line_view(r.0) == channels::logged(
                        registry@.chat_dir,
                        registry@.entries,
                        old(self)@.key,
                        channels::own_line(now, "SENT"@, id, old(self)@.next()),
                    )
                    &&& text::opt_str(r.1) == (if final(self)@.pending() {
                        None
                    } else {
                        Some(final(self)@.report())
                    })
                },
                Err(e) => {
                    &&& final(self)@ == old(self)@
                    &&& r.0 is None
                    &&& text::opt_str(r.1) == Some("Error: "@ + e@)
                },
            },
    {
        match outcome {
            Err(e) => (None, Some(error_report(e.as_str()))),
            Ok(id) => {
                let n: usize = self.sent.len();
                let line = registry.log_sent(self.key, id, self.chunks[n].as_str(), now);
                self.sent.push(id);
                if self.sent.len() < self.chunks.len() {
                    return (line, None);
                }
                let mut ids: Vec<String> = Vec::new();
                let mut i: usize = 0;
                while i < self.sent.len()
                    invariant
                        i <= self.sent@.len(),
                        ids@.len() == i,
                        forall|k: int| 0 <= k < i ==> (#[trigger] ids@[k])@ == marked(self.sent@)[k],
                    decreases self.sent@.len() - i,
                {
                    let mut one_id = "#".to_owned();
                    let digits = dec_signed(self.sent[i]);
                    one_id.append(digits.as_str());
                    ids.push(one_id);
                    i += 1;
                }
                proof {
                    assert(text::strs(ids@) =~= marked(self.sent@));
                }
                let mut report = "Sent ".to_owned();
                let count = dec_unsigned(self.chunks.len() as u128);
                report.append(count.as_str());
                report.append(" message(s) to ");
                report.append(self.channel.as_str());
                report.append(": ");
                let list = joined(&ids, ", ");
                report.append(list.as_str());
                report.append(".");
                (line, Some(report))
            },
        }
    }
}

impl Correction {
    /// The request that changes the message, rendered.
    pub fn request(&self, tg: &Telegram) -> (r: Request)
        ensures
            r.calls(
                *tg,
                "editMessageText"@,
                tg::edit_body(
                    self.key.0,
                    self.message_id,
                    markdown::rendered(self.text@, markdown::markdown_events(self.text@)),
                    Some("HTML"@),
                ),
            ),
    {
        let html = render_markdown(self.text.as_str());
        tg.edit_message_text(self.key.0, self.message_id, html.as_str(), Some("HTML"))
    }

    /// What the change came to: a line for the log where it was made, and what is reported.
    pub fn finish(&self, outcome: Result<(), String>, registry: &Channels, now: i64) -> (r: (Option<LogLine>, String))
        requires
            registry.wf(),
        ensures
            match outcome {
                Ok(_) => {
                    &&& channels::line_view(r.0) == channels::logged(
                        registry@.chat_dir,
                        registry@.entries,
                        self.key,
                        channels::own_line(now, "EDIT"@, self.message_id, self.text@),
                    )
                    &&& r.1@ == "Edited message #"@ + number::dec_int(self.message_id as int) + " in "@
                        + self.channel@ + "."@
                },
                Err(e) => r.0 is None && r.1@ == "Error: "@ + e@,
            },
    {
        match outcome {
            Ok(_) => {
                let line = registry.log_edited(self.key, self.message_id, self.text.as_str(), now);
                let mut report = "Edited message #".to_owned();
                let id = dec_signed(self.message_id);
                report.append(id.as_str());
                report.append(" in ");
                report.append(self.channel.as_str());
                report.append(".");
                (line, report)
            },
            Err(e) => (None, error_report(e.as_str())),
        }
    }
}

// ---------------------------------------------------------------------------------------------
// What calls come to
// ---------------------------------------------------------------------------------------------

/// The first argument of a name is the one that counts, whatever stands before and behind it.
pub proof fn law_first_argument_counts(
    a: Seq<(Seq<char>, ArgView)>,
    key: Seq<char>,
    value: ArgView,
    b: Seq<(Seq<char>, ArgView)>,
)
    requires
        forall|i: int| 0 <= i < a.len() ==> (#[trigger] a[i]).0 != key,
    ensures
        arg(a + seq![(key, value)] + b, key) == Some(value),
        arg(a, key) is None,
    decreases a.len(),
{
    let all = a + seq![(key, value)] + b;
    if a.len() > 0 {
        let rest = a.drop_first();
        assert(a[0].0 != key);
        assert(all.drop_first() =~= rest + seq![(key, value)] + b);
        assert forall|i: int| 0 <= i < rest.len() implies (#[trigger] rest[i]).0 != key by {
            assert(a[i + 1].0 != key);
        }
        law_first_argument_counts(rest, key, value, b);
        assert(all[0] == a[0]);
    } else {
        assert(all[0] == (key, value));
    }
}

proof fn lemma_tool_names()
    ensures
        "read_file"@ != "bash"@,
        "write_file"@ != "bash"@,
        "write_file"@ != "read_file"@,
        "edit_file"@ != "bash"@,
        "edit_file"@ != "read_file"@,
        "edit_file"@ != "write_file"@,
        "send_message"@ != "bash"@,
        "send_message"@ != "read_file"@,
        "send_message"@ != "write_file"@,
        "send_message"@ != "edit_file"@,
        "edit_message"@ != "bash"@,
        "edit_message"@ != "read_file"@,
        "edit_message"@ != "write_file"@,
        "edit_message"@ != "edit_file"@,
        "edit_message"@ != "send_message"@,
{
    reveal_strlit("bash");
    reveal_strlit("read_file");
    reveal_strlit("write_file");
    reveal_strlit("edit_file");
    reveal_strlit("send_message");
    reveal_strlit("edit_message");
    assert("bash"@.len() == 4);
    assert("read_file"@.len() == 9);
    assert("write_file"@.len() == 10);
    assert("edit_file"@.len() == 9);
    assert("send_message"@.len() == 12);
    assert("edit_message"@.len() == 12);
    assert("read_file"@[0] != "edit_file"@[0]);
    assert("send_message"@[0] != "edit_message"@[0]);
}

/// A command is run as it was given, for as long as was asked for but at most ten minutes, and for two
/// minutes where nothing was asked for. Without a command nothing is run.
pub proof fn law_commands_run_as_given(t: ToolsView, m: Seq<(Seq<char>, ArgView)>, command: Seq<char>, ms: u64)
    ensures
        arg(m, "command"@) == Some(ArgView::Text(command)) && arg(m, "timeout_ms"@) is None ==> plan(
            t,
            "bash"@,
            ArgsView::Members(m),
        ) == StepView::Bash(command, 120_000),
        arg(m, "command"@) == Some(ArgView::Text(command)) && (arg(m, "timeout_ms"@) matches Some(
            ArgView::Number(_, Some(n)),
        ) && n == ms) && ms <= 600_000 ==> plan(t, "bash"@, ArgsView::Members(m)) == StepView::Bash(command, ms),
        arg(m, "command"@) == Some(ArgView::Text(command)) && (arg(m, "timeout_ms"@) matches Some(
            ArgView::Number(_, Some(n)),
        ) && n == ms) && ms > 600_000 ==> plan(t, "bash"@, ArgsView::Members(m)) == StepView::Bash(command, 600_000),
        !(arg(m, "command"@) matches Some(ArgView::Text(_))) ==> plan(t, "bash"@, ArgsView::Members(m))
            == StepView::Answer("Error: missing or invalid argument(s): command."@),
{
    reveal_strlit("Error: missing or invalid argument(s): ");
    reveal_strlit("command");
    reveal_strlit(".");
    reveal_strlit("Error: missing or invalid argument(s): command.");
    assert("Error: missing or invalid argument(s): "@ + "command"@ + "."@
        =~= "Error: missing or invalid argument(s): command."@);
}

/// A file is read from the line that was asked for, and the first one where nothing was, with as many
/// lines as were asked for, and 2000 where nothing was; lines are counted from 1.
pub proof fn law_files_are_read_as_asked(
    t: ToolsView,
    m: Seq<(Seq<char>, ArgView)>,
    path: Seq<char>,
    offset: u64,
    limit: u64,
)
    requires
        arg(m, "path"@) == Some(ArgView::Text(path)),
        offset <= usize::MAX,
        limit <= usize::MAX,
    ensures
        plan(t, "read_file"@, ArgsView::Members(m)) matches StepView::ReadFile(p, o, l) && {
            &&& p == paths::join(t.workspace, path)
            &&& arg(m, "offset"@) is None ==> o == 1
            &&& arg(m, "limit"@) is None ==> l == 2000
            &&& arg(m, "offset"@) matches Some(ArgView::Number(_, Some(n))) ==> n == offset ==> o == (if offset == 0 {
                1
            } else {
                offset as int
            })
            &&& arg(m, "limit"@) matches Some(ArgView::Number(_, Some(n))) ==> n == limit ==> l == (if limit == 0 {
                1
            } else {
                limit as int
            })
        },
{
    lemma_tool_names();
}

/// A file is written with exactly the content that was given, and edited with exactly the snippets,
/// everywhere only where that was asked for. Without all of them nothing is written.
pub proof fn law_files_are_written_as_given(
    t: ToolsView,
    m: Seq<(Seq<char>, ArgView)>,
    path: Seq<char>,
    content: Seq<char>,
    snippet: Seq<char>,
    new: Seq<char>,
)
    requires
        arg(m, "path"@) == Some(ArgView::Text(path)),
    ensures
        arg(m, "content"@) == Some(ArgView::Text(content)) ==> plan(t, "write_file"@, ArgsView::Members(m))
            == StepView::WriteFile(paths::join(t.workspace, path), content),
        !(arg(m, "content"@) matches Some(ArgView::Text(_))) ==> plan(t, "write_file"@, ArgsView::Members(m)) is Answer,
        arg(m, "old_string"@) == Some(ArgView::Text(snippet)) && arg(m, "new_string"@) == Some(ArgView::Text(new))
            && snippet != new ==> plan(t, "edit_file"@, ArgsView::Members(m)) == StepView::EditFile(
            paths::join(t.workspace, path),
            snippet,
            new,
            arg(m, "replace_all"@) == Some(ArgView::Flag(true)),
        ),
        arg(m, "old_string"@) == Some(ArgView::Text(snippet)) && arg(m, "new_string"@) == Some(ArgView::Text(snippet))
            ==> plan(t, "edit_file"@, ArgsView::Members(m)) == StepView::Answer(
            "Error: old_string and new_string are identical."@,
        ),
        !(arg(m, "old_string"@) matches Some(ArgView::Text(_))) || !(arg(m, "new_string"@) matches Some(
            ArgView::Text(_),
        )) ==> plan(t, "edit_file"@, ArgsView::Members(m)) is Answer,
{
    lemma_tool_names();
}

/// A message goes to the channel that was named, all of it, in chunks of at most 4000 bytes, and
/// answers the message that was named, if any. A name that is nobody's is answered with all the names
/// there are, and nothing is sent without Telegram.
pub proof fn law_messages_go_where_they_should(
    t: ToolsView,
    m: Seq<(Seq<char>, ArgView)>,
    text: Seq<char>,
    channel: Seq<char>,
)
    requires
        arg(m, "text"@) == Some(ArgView::Text(text)),
        arg(m, "channel"@) == Some(ArgView::Text(channel)),
    ensures
        t.online ==> (channels::resolved(t.channels, channel) matches Some(key) ==> (plan(
            t,
            "send_message"@,
            ArgsView::Members(m),
        ) matches StepView::SendMessage(d) && {
            &&& d.key == key
            &&& d.channel == channel
            &&& d.chunks == output::chunks(text, 4000)
            &&& d.sent.len() == 0
            &&& arg(m, "reply_to_message_id"@) is None ==> d.reply_to is None
            &&& arg(m, "reply_to_message_id"@) matches Some(ArgView::Number(n, _)) ==> d.reply_to == n
        })),
        channels::resolved(t.channels, channel) is None ==> plan(t, "send_message"@, ArgsView::Members(m))
            == StepView::Answer(
            "Error: unknown channel `"@ + channel + "`. Known channels: "@ + search::join(
                channels::sorted_names(channels::names_of(t.channels)),
                ", "@,
            ) + "."@,
        ),
        !t.online && channels::resolved(t.channels, channel) is Some ==> plan(
            t,
            "send_message"@,
            ArgsView::Members(m),
        ) == StepView::Answer("Error: Telegram tools are unavailable right now."@),
{
    lemma_tool_names();
}

/// A message is changed where it stands, to exactly the text that was given, as long as one message
/// holds it; a longer text is refused with its size and the limit.
pub proof fn law_messages_are_changed_as_asked(
    t: ToolsView,
    m: Seq<(Seq<char>, ArgView)>,
    text: Seq<char>,
    channel: Seq<char>,
    id: i64,
)
    requires
        arg(m, "text"@) == Some(ArgView::Text(text)),
        arg(m, "channel"@) == Some(ArgView::Text(channel)),
        arg(m, "message_id"@) matches Some(ArgView::Number(Some(n), _)) && n == id,
        t.online,
    ensures
        channels::resolved(t.channels, channel) matches Some(key) ==> {
            let step = plan(t, "edit_message"@, ArgsView::Members(m));
            &&& text::size(text) <= 4000 ==> step == StepView::EditMessage(
                CorrectionView { key, channel, message_id: id, text },
            )
            &&& text::size(text) > 4000 ==> step == StepView::Answer(
                "Error: text is "@ + number::dec(text::size(text)) + " bytes, a single message holds at most "@
                    + number::dec(4000) + ". Shorten it or send a new message instead."@,
            )
        },
        channels::resolved(t.channels, channel) is None ==> plan(t, "edit_message"@, ArgsView::Members(m)) is Answer,
{
    lemma_tool_names();
}

/// What is no tool is answered with its name, what is no object with that, and what is no JSON with
/// what is wrong about it.
pub proof fn law_bad_calls_are_answered(
    t: ToolsView,
    name: Seq<char>,
    m: Seq<(Seq<char>, ArgView)>,
    why: Seq<char>,
)
    ensures
        name != "bash"@ && name != "read_file"@ && name != "write_file"@ && name != "edit_file"@ && name
            != "send_message"@ && name != "edit_message"@ && name != "send_typing"@ ==> dispatched(
            t,
            name,
            Ok(Some(m)),
        ) == StepView::Answer("Error: unknown tool `"@ + name + "`."@),
        dispatched(t, name, Ok(None)) == StepView::Answer("Error: tool arguments must be a JSON object."@),
        dispatched(t, name, Err(why)) == StepView::Answer("Error: arguments were not valid JSON: "@ + why),
        dispatched(t, name, Ok(Some(m))) == plan(t, name, ArgsView::Members(m)),
{
    reveal_strlit("Error: ");
    reveal_strlit("arguments were not valid JSON: ");
    reveal_strlit("Error: arguments were not valid JSON: ");
    assert("Error: "@ + ("arguments were not valid JSON: "@ + why) =~= "Error: arguments were not valid JSON: "@ + why);
}

/// What a command wrote is reported verbatim as long as each stream has at most 65536 bytes: standard
/// output, then standard error behind a line that says so where there is any, then the exit code
/// unless it is that of success.
pub proof fn law_output_is_reported(timeout_ms: u64, outcome: BashOutcome, out: Seq<char>, err: Seq<char>, code: i32)
    ensures
        outcome matches BashOutcome::Finished { stdout, stderr, exit } ==> stdout@ == encode_utf8(out) && stderr@
            == encode_utf8(err) && stdout@.len() <= 65_536 && stderr@.len() <= 65_536 ==> {
            let shown = if err.len() == 0 {
                out
            } else {
                out + "\n[stderr]\n"@ + err
            };
            &&& exit is Success ==> bash_result(timeout_ms, outcome) == shown
            &&& exit == Exit::Code(Some(code)) ==> bash_result(timeout_ms, outcome) == shown + "\n[exit code: "@
                + number::dec_int(code as int) + "]"@
            &&& exit == Exit::Code(None) ==> bash_result(timeout_ms, outcome) == shown + "\n[exit code: -1]"@
            &&& exit matches Exit::Lost(e) ==> bash_result(timeout_ms, outcome) == shown + "\nError: "@ + e@
        },
        outcome is TimedOut ==> bash_result(timeout_ms, outcome) == "[timed out after "@ + number::dec(
            timeout_ms as nat,
        ) + "ms]"@,
        outcome matches BashOutcome::NotSpawned(e) ==> bash_result(timeout_ms, outcome)
            == "Error: failed to spawn bash: "@ + e@,
{
    if let BashOutcome::Finished { stdout, stderr, exit } = outcome {
        if stdout@ == encode_utf8(out) && stderr@ == encode_utf8(err) && stdout@.len() <= 65_536 && stderr@.len()
            <= 65_536 {
            reveal_strlit("");
            reveal_strlit("\n");
            reveal_strlit("[stderr]\n");
            reveal_strlit("\n[stderr]\n");
            unicode::law_utf8_is_read_exactly(out);
            unicode::law_utf8_is_read_exactly(err);
            text::lemma_size_of_encoding(err);
            assert(""@ + out =~= out);
            assert(err.len() == 0 ==> stderr@.len() == 0) by {
                if err.len() == 0 {
                    assert(text::size(err) == 0);
                }
            }
            if err.len() > 0 {
                text::lemma_size_of_next(err, 0);
                assert(stderr@.len() > 0) by {
                    assert(text::size(err) == text::width(err[0]) + text::size(err.drop_first()));
                }
                assert(out + ("\n"@ + ("[stderr]\n"@ + err)) =~= out + "\n[stderr]\n"@ + err);
            } else {
                assert(out + Seq::<char>::empty() =~= out);
            }
            let shown = if err.len() == 0 {
                out
            } else {
                out + "\n[stderr]\n"@ + err
            };
            assert(streams(stdout@, stderr@) == shown);
            assert(shown + Seq::<char>::empty() =~= shown);
            assert(shown + ("\n[exit code: "@ + number::dec_int(code as int) + "]"@) =~= shown + "\n[exit code: "@
                + number::dec_int(code as int) + "]"@);
            if exit == Exit::Code(None) {
                reveal_strlit("\n[exit code: ");
                reveal_strlit("]");
                reveal_strlit("\n[exit code: -1]");
                number::law_numbers_are_plain_digits(1);
                assert(number::dec(1) =~= seq!['1']);
                assert(number::dec_int(-1) =~= seq!['-', '1']);
                assert("\n[exit code: "@ + number::dec_int(-1) + "]"@ =~= "\n[exit code: -1]"@);
            }
            if let Exit::Lost(e) = exit {
                assert(shown + ("\nError: "@ + e@) =~= shown + "\nError: "@ + e@);
            }
        }
    }
}

/// A delivery reports how many messages went to which channel, and the number of each, in order.
pub proof fn law_deliveries_are_reported(d: DeliveryView, a: i64, b: i64)
    ensures
        d.chunks.len() == 1 && d.sent == seq![a] ==> d.report() == "Sent 1 message(s) to "@ + d.channel + ": #"@
            + number::dec_int(a as int) + "."@,
        d.chunks.len() == 2 && d.sent == seq![a, b] ==> d.report() == "Sent 2 message(s) to "@ + d.channel + ": #"@
            + number::dec_int(a as int) + ", #"@ + number::dec_int(b as int) + "."@,
        d.pending() <==> d.sent.len() < d.chunks.len(),
{
    reveal_strlit("Sent ");
    reveal_strlit(" message(s) to ");
    reveal_strlit("Sent 1 message(s) to ");
    reveal_strlit("Sent 2 message(s) to ");
    reveal_strlit(": ");
    reveal_strlit(": #");
    reveal_strlit("#");
    reveal_strlit(", ");
    reveal_strlit(", #");
    let x = number::dec_int(a as int);
    let y = number::dec_int(b as int);
    if d.chunks.len() == 1 && d.sent == seq![a] {
        assert(marked(d.sent) =~= seq!["#"@ + x]);
        assert(number::dec(1) =~= seq!['1']);
        assert("Sent "@ + number::dec(1) + " message(s) to "@ + d.channel + ": "@ + ("#"@ + x) + "."@
            =~= "Sent 1 message(s) to "@ + d.channel + ": #"@ + x + "."@);
    }
    if d.chunks.len() == 2 && d.sent == seq![a, b] {
        assert(marked(d.sent) =~= seq!["#"@ + x, "#"@ + y]);
        search::law_joined_in_order("#"@ + x, seq!["#"@ + y], ", "@);
        assert(seq!["#"@ + x] + seq!["#"@ + y] =~= marked(d.sent));
        assert(search::join(seq!["#"@ + y], ", "@) == "#"@ + y);
        assert(number::dec(2) =~= seq!['2']);
        assert("Sent "@ + number::dec(2) + " message(s) to "@ + d.channel + ": "@ + ("#"@ + x + ", "@ + ("#"@ + y))
            + "."@ =~= "Sent 2 message(s) to "@ + d.channel + ": #"@ + x + ", #"@ + y + "."@);
    }
}

proof fn lemma_schema_names()
    ensures
        "type"@ != "function"@,
        "name"@ != "description"@,
        "name"@ != "parameters"@,
        "description"@ != "parameters"@,
        "type"@ != "properties"@,
        "type"@ != "required"@,
        "properties"@ != "required"@,
        "type"@ != "description"@,
{
    reveal_strlit("type");
    reveal_strlit("function");
    reveal_strlit("name");
    reveal_strlit("description");
    reveal_strlit("parameters");
    reveal_strlit("properties");
    reveal_strlit("required");
    assert("type"@.len() == 4);
    assert("function"@.len() == 8);
    assert("name"@.len() == 4);
    assert("description"@.len() == 11);
    assert("parameters"@.len() == 10);
    assert("properties"@.len() == 10);
    assert("required"@.len() == 8);
}

proof fn lemma_one_member(name: Seq<char>, value: JsonView, key: Seq<char>)
    ensures
        json::member(tg::field(name, value), key) == (if name == key {
            Some(value)
        } else {
            None
        }),
{
    let none = Seq::<(Seq<char>, JsonView)>::empty();
    tg::lemma_field(none, name, value, key);
    assert(none + tg::field(name, value) =~= tg::field(name, value));
    assert(json::member(none, key) is None);
}

proof fn lemma_two_members(a: Seq<char>, x: JsonView, b: Seq<char>, y: JsonView, key: Seq<char>)
    ensures
        json::member(tg::field(a, x) + tg::field(b, y), key) == (if a == key {
            Some(x)
        } else if b == key {
            Some(y)
        } else {
            None
        }),
{
    lemma_one_member(a, x, key);
    tg::lemma_field(tg::field(a, x), b, y, key);
}

proof fn lemma_three_members(
    a: Seq<char>,
    x: JsonView,
    b: Seq<char>,
    y: JsonView,
    c: Seq<char>,
    z: JsonView,
    key: Seq<char>,
)
    ensures
        json::member(tg::field(a, x) + tg::field(b, y) + tg::field(c, z), key) == (if a == key {
            Some(x)
        } else if b == key {
            Some(y)
        } else if c == key {
            Some(z)
        } else {
            None
        }),
{
    lemma_two_members(a, x, b, y, key);
    tg::lemma_field(tg::field(a, x) + tg::field(b, y), c, z, key);
}

/// The parameters of a tool in a list of tools.
pub open spec fn parameters_of(tool: JsonView) -> JsonView {
    tool.get("function"@)->0.get("parameters"@)->0
}

/// Whether a tool is offered as a function of that name whose arguments have these kinds, in that
/// order, the first of which cannot be left out.
pub open spec fn offers(tool: JsonView, name: Seq<char>, args: Seq<(Seq<char>, Seq<char>)>, required: nat) -> bool {
    let parameters = parameters_of(tool);
    &&& tool.get("type"@) == Some(JsonView::Text("function"@))
    &&& tool.get("function"@)->0.get("name"@) == Some(JsonView::Text(name))
    &&& parameters.get("type"@) == Some(JsonView::Text("object"@))
    &&& parameters.get("required"@) matches Some(JsonView::Array(list)) && list.len() == required && forall|i: int|
        0 <= i < required ==> #[trigger] list[i] == JsonView::Text(args[i].0)
    &&& parameters.get("properties"@) matches Some(JsonView::Object(members)) && members.len() == args.len()
        && forall|i: int|
        0 <= i < args.len() ==> (#[trigger] members[i]).0 == args[i].0 && members[i].1.get("type"@) == Some(
            JsonView::Text(args[i].1),
        )
}

proof fn lemma_property(name: Seq<char>, kind: Seq<char>, description: Option<Seq<char>>)
    ensures
        property(name, kind, description).len() == 1,
        property(name, kind, description)[0].0 == name,
        property(name, kind, description)[0].1.get("type"@) == Some(JsonView::Text(kind)),
{
    let t = tg::field("type"@, JsonView::Text(kind));
    lemma_one_member("type"@, JsonView::Text(kind), "type"@);
    match description {
        Some(d) => tg::lemma_field(t, "description"@, JsonView::Text(d), "type"@),
        None => {
            assert(t + tg::text_field("description"@, description) =~= t);
        },
    }
}

proof fn lemma_schema(
    name: Seq<char>,
    description: Seq<char>,
    properties: Seq<(Seq<char>, JsonView)>,
    required: Seq<Seq<char>>,
)
    ensures
        ({
            let tool = tool_schema(name, description, properties, required);
            &&& tool.get("type"@) == Some(JsonView::Text("function"@))
            &&& tool.get("function"@)->0.get("name"@) == Some(JsonView::Text(name))
            &&& parameters_of(tool).get("type"@) == Some(JsonView::Text("object"@))
            &&& parameters_of(tool).get("properties"@) == Some(JsonView::Object(properties))
            &&& parameters_of(tool).get("required"@) == Some(
                JsonView::Array(Seq::new(required.len(), |i: int| JsonView::Text(required[i]))),
            )
        }),
{
    lemma_schema_names();
    let object = JsonView::Text("object"@);
    let props = JsonView::Object(properties);
    let list = JsonView::Array(Seq::new(required.len(), |i: int| JsonView::Text(required[i])));
    let parameters = JsonView::Object(
        tg::field("type"@, object) + tg::field("properties"@, props) + tg::field("required"@, list),
    );
    let (n, d) = (JsonView::Text(name), JsonView::Text(description));
    let function = JsonView::Object(
        tg::field("name"@, n) + tg::field("description"@, d) + tg::field("parameters"@, parameters),
    );
    lemma_two_members("type"@, JsonView::Text("function"@), "function"@, function, "type"@);
    lemma_two_members("type"@, JsonView::Text("function"@), "function"@, function, "function"@);
    lemma_three_members("name"@, n, "description"@, d, "parameters"@, parameters, "name"@);
    lemma_three_members("name"@, n, "description"@, d, "parameters"@, parameters, "parameters"@);
    lemma_three_members("type"@, object, "properties"@, props, "required"@, list, "type"@);
    lemma_three_members("type"@, object, "properties"@, props, "required"@, list, "properties"@);
    lemma_three_members("type"@, object, "properties"@, props, "required"@, list, "required"@);
}

/// The model is offered six tools, by the names and with the arguments that calls are read by.
pub proof fn law_tools_are_offered()
    ensures
        tool_list() matches JsonView::Array(tools) && tools.len() == 6 && offers(
            tools[0],
            "bash"@,
            seq![("command"@, "string"@), ("timeout_ms"@, "integer"@)],
            1,
        ) && offers(
            tools[1],
            "read_file"@,
            seq![("path"@, "string"@), ("offset"@, "integer"@), ("limit"@, "integer"@)],
            1,
        ) && offers(tools[2], "write_file"@, seq![("path"@, "string"@), ("content"@, "string"@)], 2) && offers(
            tools[3],
            "edit_file"@,
            seq![
                ("path"@, "string"@),
                ("old_string"@, "string"@),
                ("new_string"@, "string"@),
                ("replace_all"@, "boolean"@),
            ],
            3,
        ) && offers(
            tools[4],
            "send_message"@,
            seq![("channel"@, "string"@), ("text"@, "string"@), ("reply_to_message_id"@, "integer"@)],
            2,
        ) && offers(
            tools[5],
            "edit_message"@,
            seq![("channel"@, "string"@), ("message_id"@, "integer"@), ("text"@, "string"@)],
            3,
        ),
{
    let command = property("command"@, "string"@, Some("Shell command to run."@));
    let timeout = property("timeout_ms"@, "integer"@, Some("Optional timeout, 120000 by default, 600000 max."@));
    let path = property("path"@, "string"@, Some(PATH_DESCRIPTION@));
    let offset = property("offset"@, "integer"@, Some("1-based first line to read, default 1."@));
    let limit = property("limit"@, "integer"@, Some("Max lines to read, default 2000."@));
    let content = property("content"@, "string"@, Some("Full file content."@));
    let was = property("old_string"@, "string"@, None);
    let new = property("new_string"@, "string"@, None);
    let all = property("replace_all"@, "boolean"@, Some("Replace every occurrence, default false."@));
    let channel = property("channel"@, "string"@, Some(CHANNEL_DESCRIPTION@));
    let text = property("text"@, "string"@, Some("Message text, Markdown."@));
    let reply = property("reply_to_message_id"@, "integer"@, Some("Optional message to reply to."@));
    let place = property("channel"@, "string"@, Some("Channel name, exactly as in your channel list."@));
    let id = property("message_id"@, "integer"@, Some("Id of YOUR message, as reported by send_message."@));
    let change = property("text"@, "string"@, Some("Full replacement text, Markdown."@));
    lemma_property("command"@, "string"@, Some("Shell command to run."@));
    lemma_property("timeout_ms"@, "integer"@, Some("Optional timeout, 120000 by default, 600000 max."@));
    lemma_property("path"@, "string"@, Some(PATH_DESCRIPTION@));
    lemma_property("offset"@, "integer"@, Some("1-based first line to read, default 1."@));
    lemma_property("limit"@, "integer"@, Some("Max lines to read, default 2000."@));
    lemma_property("content"@, "string"@, Some("Full file content."@));
    lemma_property("old_string"@, "string"@, None);
    lemma_property("new_string"@, "string"@, None);
    lemma_property("replace_all"@, "boolean"@, Some("Replace every occurrence, default false."@));
    lemma_property("channel"@, "string"@, Some(CHANNEL_DESCRIPTION@));
    lemma_property("text"@, "string"@, Some("Message text, Markdown."@));
    lemma_property("reply_to_message_id"@, "integer"@, Some("Optional message to reply to."@));
    lemma_property("channel"@, "string"@, Some("Channel name, exactly as in your channel list."@));
    lemma_property("message_id"@, "integer"@, Some("Id of YOUR message, as reported by send_message."@));
    lemma_property("text"@, "string"@, Some("Full replacement text, Markdown."@));
    lemma_schema("bash"@, BASH_DESCRIPTION@, command + timeout, seq!["command"@]);
    lemma_schema("read_file"@, READ_DESCRIPTION@, path + offset + limit, seq!["path"@]);
    lemma_schema("write_file"@, WRITE_DESCRIPTION@, path + content, seq!["path"@, "content"@]);
    lemma_schema(
        "edit_file"@,
        EDIT_DESCRIPTION@,
        path + was + new + all,
        seq!["path"@, "old_string"@, "new_string"@],
    );
    lemma_schema("send_message"@, SEND_DESCRIPTION@, channel + text + reply, seq!["channel"@, "text"@]);
    lemma_schema(
        "edit_message"@,
        EDIT_MESSAGE_DESCRIPTION@,
        place + id + change,
        seq!["channel"@, "message_id"@, "text"@],
    );
}

/// The typing indicator is shown in the chat that was named.
pub proof fn law_typing_goes_to_the_chat(t: ToolsView, m: Seq<(Seq<char>, ArgView)>, id: i64)
    requires
        t.online,
    ensures
        (arg(m, "chat_id"@) matches Some(ArgView::Number(Some(n), _)) && n == id) ==> plan(
            t,
            "send_typing"@,
            ArgsView::Members(m),
        ) == StepView::SendTyping(id),
        arg(m, "chat_id"@) is None ==> plan(t, "send_typing"@, ArgsView::Members(m)) is Answer,
{
    reveal_strlit("send_typing");
    reveal_strlit("bash");
    reveal_strlit("read_file");
    reveal_strlit("write_file");
    reveal_strlit("edit_file");
    reveal_strlit("send_message");
    reveal_strlit("edit_message");
    assert("send_typing"@.len() == 11);
    assert("bash"@.len() == 4);
    assert("read_file"@.len() == 9);
    assert("write_file"@.len() == 10);
    assert("edit_file"@.len() == 9);
    assert("send_message"@.len() == 12);
    assert("edit_message"@.len() == 12);
}

/// A call that lacks an argument is answered with the names of those that the tool needs.
pub proof fn law_missing_arguments_are_named(t: ToolsView, m: Seq<(Seq<char>, ArgView)>)
    ensures
        ({
            let path = arg(m, "path"@) matches Some(ArgView::Text(_));
            let content = arg(m, "content"@) matches Some(ArgView::Text(_));
            let snippet = arg(m, "old_string"@) matches Some(ArgView::Text(_));
            let new = arg(m, "new_string"@) matches Some(ArgView::Text(_));
            let channel = arg(m, "channel"@) matches Some(ArgView::Text(_));
            let text = arg(m, "text"@) matches Some(ArgView::Text(_));
            let message = arg(m, "message_id"@) matches Some(ArgView::Number(Some(_), _));
            let chat = arg(m, "chat_id"@) matches Some(ArgView::Number(Some(_), _));
            let lacks = "Error: missing or invalid argument(s): "@;
            let args = ArgsView::Members(m);
            &&& !path ==> plan(t, "read_file"@, args) == StepView::Answer(lacks + "path"@ + "."@)
            &&& !path || !content ==> plan(t, "write_file"@, args) == StepView::Answer(lacks + "path, content"@ + "."@)
            &&& !path || !snippet || !new ==> plan(t, "edit_file"@, args) == StepView::Answer(
                lacks + "path, old_string, new_string"@ + "."@,
            )
            &&& !channel || !text ==> plan(t, "send_message"@, args) == StepView::Answer(
                lacks + "channel, text"@ + "."@,
            )
            &&& !channel || !text || !message ==> plan(t, "edit_message"@, args) == StepView::Answer(
                lacks + "channel, message_id, text"@ + "."@,
            )
            &&& t.online && !chat ==> typing_plan(t, m) == StepView::Answer(lacks + "chat_id"@ + "."@)
            &&& !t.online ==> typing_plan(t, m) == StepView::Answer(
                "Error: Telegram tools are unavailable right now."@,
            )
        }),
{
    lemma_tool_names();
}

} // verus!
