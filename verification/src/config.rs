//! Configuration. Secrets (tokens) may live in the environment instead of the file; the system
//! prompt may be inline or in a file.
use vstd::prelude::*;

verus! {

/// Where the Bot API is, unless it is said.
pub fn default_api_url() -> (r: String)
    ensures
        r@ == "https://api.telegram.org"@,
{
    "https://api.telegram.org".to_owned()
}

/// Where the model is, unless it is said.
pub fn default_base_url() -> (r: String)
    ensures
        r@ == "https://api.z.ai/api/paas/v4"@,
{
    "https://api.z.ai/api/paas/v4".to_owned()
}

/// Which model, unless it is said.
pub fn default_model() -> (r: String)
    ensures
        r@ == "glm-5.3-flash"@,
{
    "glm-5.3-flash".to_owned()
}

/// Tokens of a reply at most, unless it is said.
pub fn default_max_output() -> (r: u32)
    ensures
        r == 8192,
{
    8192
}

/// Tokens from which on the conversation is compacted, unless it is said.
pub fn default_threshold() -> (r: u64)
    ensures
        r == 48_000,
{
    48_000
}

/// Tokens that compaction keeps, unless it is said.
pub fn default_retain() -> (r: u64)
    ensures
        r == 8_000,
{
    8_000
}

/// The workspace directory, unless it is said.
pub fn default_workspace() -> (r: String)
    ensures
        r@ == "workspace"@,
{
    "workspace".to_owned()
}

/// The state directory, unless it is said.
pub fn default_state() -> (r: String)
    ensures
        r@ == "state"@,
{
    "state".to_owned()
}

/// Seconds between scheduled wakes, unless it is said.
pub fn default_idle() -> (r: u64)
    ensures
        r == 600,
{
    600
}

/// What a switch is that is on unless it is said.
pub fn default_true() -> (r: bool)
    ensures
        r,
{
    true
}

/// The configuration.
pub struct Config {
    pub telegram: TelegramCfg,
    pub llm: LlmCfg,
    pub agent: AgentCfg,
}

/// What is configured of Telegram.
pub struct TelegramCfg {
    pub token: Option<String>,
    /// Override to talk to a local Bot API server or a test stub.
    pub api_url: String,
    pub bot_username: Option<String>,
    pub allowed_users: Vec<AllowedUser>,
    pub subscribed_topics: Vec<TopicCfg>,
}

/// A user whom the agent listens to.
#[derive(Debug)]
pub struct AllowedUser {
    pub id: i64,
    pub name: Option<String>,
}

/// A topic that the agent listens to closely.
#[derive(Debug)]
pub struct TopicCfg {
    pub chat_id: i64,
    pub thread_id: i64,
}

/// What is configured of the model.
pub struct LlmCfg {
    pub api_key: Option<String>,
    pub base_url: String,
    pub model: String,
    pub max_output_tokens: u32,
    /// Sampling temperature, as a JSON number.
    pub temperature: Option<String>,
    /// `reasoning_effort` for Z.ai: low | high | max on GLM-5.3* (default of the provider is
    /// `max`). `None` sends nothing and keeps API defaults.
    pub reasoning_effort: Option<String>,
    /// Preserved thinking: store `reasoning_content` of assistant messages and replay it verbatim
    /// (`clear_thinking: false`). Recommended for tool-using agents; raises token usage between
    /// compactions.
    pub preserve_thinking: bool,
    pub compaction_threshold_tokens: u64,
    pub compaction_retain_tokens: u64,
}

/// What is configured of the agent.
#[derive(Debug)]
pub struct AgentCfg {
    pub system_prompt: Option<String>,
    pub system_prompt_file: Option<String>,
    pub workspace_dir: String,
    pub state_dir: String,
    pub idle_wake_secs: u64,
    pub heartbeat: bool,
}

/// The first that is known.
pub open spec fn either(a: Option<String>, b: Option<String>) -> Option<String> {
    if a is Some {
        a
    } else {
        b
    }
}

/// The configuration with what the environment and the prompt file add to it.
pub open spec fn completed(
    cfg: Config,
    env_token: Option<String>,
    env_api_key: Option<String>,
    prompt: Option<String>,
) -> Config {
    Config {
        telegram: TelegramCfg { token: either(cfg.telegram.token, env_token), ..cfg.telegram },
        llm: LlmCfg { api_key: either(cfg.llm.api_key, env_api_key), ..cfg.llm },
        agent: AgentCfg {
            system_prompt: if cfg.agent.system_prompt_file is Some {
                prompt
            } else {
                cfg.agent.system_prompt
            },
            ..cfg.agent
        },
    }
}

impl Config {
    /// Complete a configuration: a token or key that it lacks comes from the environment, and the
    /// content of the prompt file, `None` where it could not be read, takes the place of an inline
    /// prompt. Each of the three must be known then.
    pub fn load(self, env_token: Option<String>, env_api_key: Option<String>, prompt: Option<String>) -> (r: Result<
        Self,
        String,
    >)
        ensures
            ({
                let done = completed(self, env_token, env_api_key, prompt);
                if done.telegram.token is None {
                    r is Err && r->Err_0@ == "telegram token missing: set `telegram.token` or $TELEGRAM_BOT_TOKEN"@
                } else if done.llm.api_key is None {
                    r is Err && r->Err_0@ == "llm api key missing: set `llm.api_key` or $ZAI_API_KEY"@
                } else if self.agent.system_prompt_file is Some && prompt is None {
                    r is Err && r->Err_0@ == "read system prompt "@ + self.agent.system_prompt_file->0@
                } else if done.agent.system_prompt is None {
                    r is Err && r->Err_0@
                        == "system prompt missing: set `agent.system_prompt` or `agent.system_prompt_file`"@
                } else {
                    r == Ok::<Config, String>(done)
                }
            }),
    {
        let mut cfg = self;
        if cfg.telegram.token.is_none() {
            cfg.telegram.token = env_token;
        }
        if cfg.telegram.token.is_none() {
            return Err("telegram token missing: set `telegram.token` or $TELEGRAM_BOT_TOKEN".to_owned());
        }
        if cfg.llm.api_key.is_none() {
            cfg.llm.api_key = env_api_key;
        }
        if cfg.llm.api_key.is_none() {
            return Err("llm api key missing: set `llm.api_key` or $ZAI_API_KEY".to_owned());
        }
        if let Some(file) = &cfg.agent.system_prompt_file {
            match prompt {
                Some(p) => {
                    cfg.agent.system_prompt = Some(p);
                },
                None => {
                    let mut e = "read system prompt ".to_owned();
                    e.append(file.as_str());
                    return Err(e);
                },
            }
        }
        if cfg.agent.system_prompt.is_none() {
            return Err(
                "system prompt missing: set `agent.system_prompt` or `agent.system_prompt_file`".to_owned(),
            );
        }
        Ok(cfg)
    }
}

/// What the file says counts, and the environment only where it says nothing; the prompt comes from
/// the file that is named for it, where one is, and everything else stays as the file has it.
pub proof fn law_the_file_counts_first(
    cfg: Config,
    env_token: Option<String>,
    env_api_key: Option<String>,
    prompt: Option<String>,
)
    ensures
        ({
            let r = completed(cfg, env_token, env_api_key, prompt);
            &&& cfg.telegram.token is Some ==> r.telegram.token == cfg.telegram.token
            &&& cfg.telegram.token is None ==> r.telegram.token == env_token
            &&& cfg.llm.api_key is Some ==> r.llm.api_key == cfg.llm.api_key
            &&& cfg.llm.api_key is None ==> r.llm.api_key == env_api_key
            &&& cfg.agent.system_prompt_file is Some ==> r.agent.system_prompt == prompt
            &&& cfg.agent.system_prompt_file is None ==> r.agent.system_prompt == cfg.agent.system_prompt
            &&& r.agent == (AgentCfg { system_prompt: r.agent.system_prompt, ..cfg.agent })
            &&& r.telegram == (TelegramCfg { token: r.telegram.token, ..cfg.telegram })
            &&& r.llm == (LlmCfg { api_key: r.llm.api_key, ..cfg.llm })
        }),
{
}

} // verus!
