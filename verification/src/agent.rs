//! Language models: which one to call, when to call again, and what to ask.
use vstd::prelude::*;
use vstd::string::*;

use crate::config::{budget_text, AppConfig, DEFAULT_LLM_RETRY, LlmProvider, LlmSettings};
use crate::text::{
    blank, chars_of, clone_opt, dec, dec_u64, has_part, has_string, is_blank, join, joined, opt_str,
    parts_of_a_join, parts_stand_in_the_whole, same, starts_with, string_of_range, strs, strs_push, trim, trim_is_tight, trim_start, trimmed, white,
};
use crate::utils::{tidied, tidy};

verus! {

/// The call of a tool that a model asks for.
#[derive(Debug)]
pub struct ToolCall {
    pub id: String,
    /// The name of the tool.
    pub name: String,
    /// The arguments, as JSON.
    pub arguments: String,
    /// The whole call, as JSON.
    pub raw: String,
}

/// A message to or from a model.
#[derive(Debug)]
pub struct Message {
    pub role: String,
    pub content: String,
    /// The calls that a model asks for.
    pub tool_calls: Option<Vec<ToolCall>>,
    /// The call that a tool's message answers.
    pub tool_call_id: Option<String>,
}

impl Message {
    /// Whether this is a plain message with the given role and content.
    pub open spec fn is_plain(self, role: Seq<char>, content: Seq<char>) -> bool {
        self.role@ == role && self.content@ == content && self.tool_calls is None
            && self.tool_call_id is None
    }

    pub fn system(content: &str) -> (r: Message)
        ensures
            r.is_plain("system"@, content@),
    {
        Message {
            role: "system".to_owned(),
            content: content.to_owned(),
            tool_calls: None,
            tool_call_id: None,
        }
    }

    pub fn user(content: &str) -> (r: Message)
        ensures
            r.is_plain("user"@, content@),
    {
        Message {
            role: "user".to_owned(),
            content: content.to_owned(),
            tool_calls: None,
            tool_call_id: None,
        }
    }

    pub fn assistant(content: &str) -> (r: Message)
        ensures
            r.is_plain("assistant"@, content@),
    {
        Message {
            role: "assistant".to_owned(),
            content: content.to_owned(),
            tool_calls: None,
            tool_call_id: None,
        }
    }
}

// ---- which model to call ----

/// A model to call.
#[derive(Debug)]
pub struct LlmConfig {
    /// The name of the provider; tokens are counted under it and the model's.
    pub provider: String,
    pub api_key: String,
    pub base_url: String,
    pub model: String,
}

/// What the environment says of models.
#[derive(Debug)]
pub struct LlmEnv {
    /// `OPENAI_API_KEY`
    pub api_key: Option<String>,
    /// `OPENAI_BASE_URL`
    pub base_url: Option<String>,
    /// `MODEL_NAME`
    pub model: Option<String>,
}

impl Default for LlmEnv {
    fn default() -> (r: LlmEnv)
        ensures
            r.api_key is None,
            r.base_url is None,
            r.model is None,
    {
        LlmEnv { api_key: None, base_url: None, model: None }
    }
}

/// A model to call, by its characters.
pub struct LlmView {
    pub provider: Seq<char>,
    pub api_key: Seq<char>,
    pub base_url: Seq<char>,
    pub model: Seq<char>,
}

/// The model of the environment, where a key is set.
pub open spec fn env_llm(env: LlmEnv) -> Option<LlmView> {
    match env.api_key {
        Some(key) => if is_blank(key@) {
            None
        } else {
            Some(
                LlmView {
                    provider: "env"@,
                    api_key: key@,
                    base_url: match env.base_url {
                        Some(u) => u@,
                        None => "https://api.openai.com/v1"@,
                    },
                    model: env_model(env),
                },
            )
        },
        None => None,
    }
}

/// The name of a model in the environment.
pub open spec fn env_model(env: LlmEnv) -> Seq<char> {
    match env.model {
        Some(m) => m@,
        None => "gpt-3.5-turbo"@,
    }
}

/// Where the first provider with the name `name` stands.
pub open spec fn named_provider(ps: Seq<LlmProvider>, name: Option<Seq<char>>) -> Option<int>
    decreases ps.len(),
{
    if ps.len() == 0 || name is None {
        None
    } else if ps[0].name@ == name->0 {
        Some(0)
    } else {
        match named_provider(ps.drop_first(), name) {
            Some(i) => Some(i + 1),
            None => None,
        }
    }
}

/// Where the first provider with a key stands.
pub open spec fn keyed_provider(ps: Seq<LlmProvider>) -> Option<int>
    decreases ps.len(),
{
    if ps.len() == 0 {
        None
    } else if !is_blank(ps[0].api_key@) {
        Some(0)
    } else {
        match keyed_provider(ps.drop_first()) {
            Some(i) => Some(i + 1),
            None => None,
        }
    }
}

/// Where the provider to use stands: the one that is chosen, else the first with a key, else
/// the first.
pub open spec fn provider_at(s: LlmSettings) -> int {
    match named_provider(s.providers@, opt_str(s.default_provider)) {
        Some(i) => i,
        None => match keyed_provider(s.providers@) {
            Some(i) => i,
            None => 0,
        },
    }
}

/// The model to use of a provider: the one that is chosen where it is the provider's, else
/// the provider's first, else that of the environment.
pub open spec fn model_of(s: LlmSettings, p: LlmProvider, env: LlmEnv) -> Seq<char> {
    if s.default_model is Some && strs(p.models@).contains(s.default_model->0@) {
        s.default_model->0@
    } else if p.models@.len() > 0 && !is_blank(p.models@[0]@) {
        trim(p.models@[0]@)
    } else {
        env_model(env)
    }
}

/// The model to call: that of the environment where no provider is set; none where the
/// provider to use has no key or no address.
pub open spec fn resolved_llm(s: LlmSettings, env: LlmEnv) -> Option<LlmView> {
    if s.providers@.len() == 0 {
        env_llm(env)
    } else {
        let p = s.providers@[provider_at(s)];
        if is_blank(p.api_key@) || is_blank(p.base_url@) {
            None
        } else {
            Some(
                LlmView {
                    provider: p.name@,
                    api_key: trim(p.api_key@),
                    base_url: trim(p.base_url@),
                    model: model_of(s, p, env),
                },
            )
        }
    }
}

fn find_named(ps: &Vec<LlmProvider>, name: &Option<String>) -> (r: Option<usize>)
    ensures
        match r {
            Some(i) => i < ps@.len() && named_provider(ps@, opt_str(*name)) == Some(i as int),
            None => named_provider(ps@, opt_str(*name)) is None,
        },
{
    let ghost wanted = opt_str(*name);
    match name {
        None => None,
        Some(n) => {
            let mut i: usize = 0;
            assert(ps@.skip(0) =~= ps@);
            while i < ps.len()
                invariant
                    i <= ps@.len(),
                    wanted == Some(n@),
                    wanted == opt_str(*name),
                    named_provider(ps@, wanted) == (match named_provider(
                        ps@.skip(i as int),
                        wanted,
                    ) {
                        Some(j) => Some(i + j),
                        None => None,
                    }),
                decreases ps@.len() - i,
            {
                assert(ps@.skip(i as int)[0] == ps@[i as int]);
                assert(ps@.skip(i as int).drop_first() =~= ps@.skip(i + 1));
                if same(&ps[i].name, n) {
                    return Some(i);
                }
                i += 1;
            }
            None
        },
    }
}

fn find_keyed(ps: &Vec<LlmProvider>) -> (r: Option<usize>)
    ensures
        match r {
            Some(i) => i < ps@.len() && keyed_provider(ps@) == Some(i as int),
            None => keyed_provider(ps@) is None,
        },
{
    let mut i: usize = 0;
    assert(ps@.skip(0) =~= ps@);
    while i < ps.len()
        invariant
            i <= ps@.len(),
            keyed_provider(ps@) == (match keyed_provider(ps@.skip(i as int)) {
                Some(j) => Some(i + j),
                None => None,
            }),
        decreases ps@.len() - i,
    {
        assert(ps@.skip(i as int)[0] == ps@[i as int]);
        assert(ps@.skip(i as int).drop_first() =~= ps@.skip(i + 1));
        if !blank(&ps[i].api_key) {
            return Some(i);
        }
        i += 1;
    }
    None
}

impl LlmConfig {
    /// Its characters.
    pub open spec fn view(self) -> LlmView {
        LlmView {
            provider: self.provider@,
            api_key: self.api_key@,
            base_url: self.base_url@,
            model: self.model@,
        }
    }

    /// The model of the environment, where a key is set.
    pub fn from_env(env: &LlmEnv) -> (r: Option<LlmConfig>)
        ensures
            match r {
                Some(c) => env_llm(*env) == Some(c.view()),
                None => env_llm(*env) is None,
            },
    {
        match clone_opt(&env.api_key) {
            Some(api_key) => {
                if blank(&api_key) {
                    return None;
                }
                let base_url = match clone_opt(&env.base_url) {
                    Some(u) => u,
                    None => "https://api.openai.com/v1".to_owned(),
                };
                let model = match clone_opt(&env.model) {
                    Some(m) => m,
                    None => "gpt-3.5-turbo".to_owned(),
                };
                Some(LlmConfig { provider: "env".to_owned(), api_key, base_url, model })
            },
            None => None,
        }
    }

    /// The model to call, by the settings and the environment.
    pub fn resolve(settings: &LlmSettings, env: &LlmEnv) -> (r: Option<LlmConfig>)
        ensures
            match r {
                Some(c) => resolved_llm(*settings, *env) == Some(c.view()),
                None => resolved_llm(*settings, *env) is None,
            },
    {
        if settings.providers.len() == 0 {
            return LlmConfig::from_env(env);
        }
        let i: usize = match find_named(&settings.providers, &settings.default_provider) {
            Some(i) => i,
            None => match find_keyed(&settings.providers) {
                Some(i) => i,
                None => 0,
            },
        };
        let p = &settings.providers[i];
        let api_key = trimmed(&p.api_key);
        let base_url = trimmed(&p.base_url);
        if api_key.as_str().is_empty() || base_url.as_str().is_empty() {
            return None;
        }
        let model = pick_model(settings, p, env);
        Some(LlmConfig { provider: p.name.as_str().to_owned(), api_key, base_url, model })
    }

    /// The name under which tokens are counted.
    pub fn label(&self) -> (r: String)
        ensures
            r@ == self.provider@ + "/"@ + self.model@,
    {
        self.provider.as_str().to_owned().concat("/").concat(&self.model)
    }

    /// The address to post a request to.
    pub fn chat_url(&self) -> (r: String)
        ensures
            r@ == self.base_url@ + "/chat/completions"@,
    {
        self.base_url.as_str().to_owned().concat("/chat/completions")
    }
}

fn pick_model(s: &LlmSettings, p: &LlmProvider, env: &LlmEnv) -> (r: String)
    ensures
        r@ == model_of(*s, *p, *env),
{
    match &s.default_model {
        Some(m) => {
            if has_string(&p.models, m) {
                return m.as_str().to_owned();
            }
        },
        None => {},
    }
    if p.models.len() > 0 {
        let first = trimmed(&p.models[0]);
        if !first.as_str().is_empty() {
            return first;
        }
    }
    match clone_opt(&env.model) {
        Some(m) => m,
        None => "gpt-3.5-turbo".to_owned(),
    }
}

/// The model to call, by the settings of the application and the environment.
pub fn resolve_config(config: &AppConfig, env: &LlmEnv) -> (r: Option<LlmConfig>)
    ensures
        match r {
            Some(c) => resolved_llm(config.llm, *env) == Some(c.view()),
            None => resolved_llm(config.llm, *env) is None,
        },
{
    LlmConfig::resolve(&config.llm, env)
}

/// A model that is to be called has a key and an address that are not blank.
pub proof fn resolved_is_usable(s: LlmSettings, env: LlmEnv)
    ensures
        resolved_llm(s, env) matches Some(c) ==> !is_blank(c.api_key) && (s.providers@.len() > 0
            ==> !is_blank(c.base_url)),
{
    if s.providers@.len() > 0 {
        let p = s.providers@[provider_at(s)];
        trim_is_tight(p.api_key@);
        trim_is_tight(p.base_url@);
    }
}

// ---- calls ----

/// The tokens of one call.
#[derive(Debug, Clone, Copy, PartialEq, Eq, Structural)]
pub struct TokenUsage {
    pub prompt_tokens: u64,
    pub completion_tokens: u64,
    pub total_tokens: u64,
}

impl Default for TokenUsage {
    fn default() -> (r: TokenUsage)
        ensures
            r == (TokenUsage { prompt_tokens: 0, completion_tokens: 0, total_tokens: 0 }),
    {
        TokenUsage { prompt_tokens: 0, completion_tokens: 0, total_tokens: 0 }
    }
}

/// What a call gave.
#[derive(Debug)]
pub struct ChatOutcome {
    pub content: String,
    /// The provider and the model.
    pub model: String,
    pub usage: TokenUsage,
    /// The calls of tools that the model asks for.
    pub tool_calls: Option<Vec<ToolCall>>,
}

/// Why a call failed.
#[derive(Debug)]
pub enum LlmError {
    Network(String),
    Api(String),
    Parse(String),
    /// The budget of tokens is used up.
    Budget(String),
}

impl LlmError {
    /// Its text for the user.
    pub open spec fn text(self) -> Seq<char> {
        match self {
            LlmError::Network(m) => "网络错误: "@ + m@,
            LlmError::Api(m) => "API 错误: "@ + m@,
            LlmError::Parse(m) => "解析响应失败: "@ + m@,
            LlmError::Budget(m) => "预算限制: "@ + m@,
        }
    }

    /// Its text for the user.
    pub fn message(&self) -> (r: String)
        ensures
            r@ == self.text(),
    {
        match self {
            LlmError::Network(m) => "网络错误: ".to_owned().concat(m),
            LlmError::Api(m) => "API 错误: ".to_owned().concat(m),
            LlmError::Parse(m) => "解析响应失败: ".to_owned().concat(m),
            LlmError::Budget(m) => "预算限制: ".to_owned().concat(m),
        }
    }

    /// Whether the call may succeed if it is made again: the network failed, or the server
    /// was busy or broken.
    pub open spec fn may_pass(self) -> bool {
        match self {
            LlmError::Network(_) => true,
            LlmError::Api(m) => "HTTP 429"@.is_prefix_of(trim_start(m@))
                || "HTTP 5"@.is_prefix_of(trim_start(m@)),
            LlmError::Parse(_) => false,
            LlmError::Budget(_) => false,
        }
    }

    /// Whether the call may succeed if it is made again.
    pub fn is_retryable(&self) -> (r: bool)
        ensures
            r == self.may_pass(),
    {
        match self {
            LlmError::Network(_) => true,
            LlmError::Api(m) => {
                let s = left_trimmed(m);
                starts_with(&s, "HTTP 429") || starts_with(&s, "HTTP 5")
            },
            LlmError::Parse(_) => false,
            LlmError::Budget(_) => false,
        }
    }
}

fn left_trimmed(s: &str) -> (r: String)
    ensures
        r@ == trim_start(s@),
{
    let v = chars_of(s);
    let mut lo: usize = 0;
    assert(v@.skip(0) =~= v@);
    while lo < v.len() && white(v[lo])
        invariant
            lo <= v@.len(),
            trim_start(v@) == trim_start(v@.skip(lo as int)),
        decreases v@.len() - lo,
    {
        assert(v@.skip(lo as int).drop_first() =~= v@.skip(lo + 1));
        lo += 1;
    }
    assert(v@.skip(lo as int) =~= v@.subrange(lo as int, v@.len() as int));
    string_of_range(&v, lo, v.len())
}

/// How often a failed call is made again.
pub open spec fn retries_of(s: LlmSettings) -> nat {
    let n = match s.retry_count {
        Some(n) => n as nat,
        None => DEFAULT_LLM_RETRY as nat,
    };
    if n > 10 {
        10
    } else {
        n
    }
}

/// Whether a call may be made after `used` tokens, and how often it is made again where it
/// fails.
pub fn before_chat(settings: &LlmSettings, used: i64) -> (r: Result<usize, LlmError>)
    ensures
        match r {
            Ok(n) => n == retries_of(*settings) && (settings.budget_tokens is None
                || settings.budget_tokens->0 <= 0 || used < settings.budget_tokens->0),
            Err(e) => settings.budget_tokens matches Some(b) && b > 0 && used >= b && (
            e matches LlmError::Budget(m) && m@ == budget_text(
                used as int,
                b as int,
            )),
        },
{
    match settings.budget_error(used) {
        Some(m) => Err(LlmError::Budget(m)),
        None => {
            let n: u32 = match settings.retry_count {
                Some(n) => n,
                None => DEFAULT_LLM_RETRY,
            };
            Ok(if n > 10 {
                10
            } else {
                n as usize
            })
        },
    }
}

/// How many milliseconds are waited after `attempt` repetitions: twice as many each time.
pub open spec fn wait_before(attempt: nat) -> nat
    decreases attempt,
{
    if attempt == 0 {
        600
    } else {
        2 * wait_before((attempt - 1) as nat)
    }
}

proof fn waits_grow(a: nat, b: nat)
    requires
        a <= b,
    ensures
        wait_before(a) <= wait_before(b),
    decreases b,
{
    if a < b {
        waits_grow(a, (b - 1) as nat);
    }
}

/// How many milliseconds to wait before the call is made again, after `attempt` repetitions
/// have failed, the last with `error`. `None` where it is not made again.
pub fn retry_delay(error: &LlmError, attempt: usize, retries: usize) -> (r: Option<u64>)
    requires
        attempt < retries ==> wait_before(attempt as nat) <= u64::MAX,
    ensures
        match r {
            Some(ms) => error.may_pass() && attempt < retries && ms == wait_before(attempt as nat),
            None => !error.may_pass() || attempt >= retries,
        },
{
    if attempt < retries && error.is_retryable() {
        let mut ms: u64 = 600;
        let mut i: usize = 0;
        while i < attempt
            invariant
                i <= attempt,
                ms == wait_before(i as nat),
                wait_before(attempt as nat) <= u64::MAX,
            decreases attempt - i,
        {
            proof {
                waits_grow((i + 1) as nat, attempt as nat);
            }
            ms = ms * 2;
            i = i + 1;
        }
        Some(ms)
    } else {
        None
    }
}

/// How many calls are made where the `i`th fails with `errors[i]` and each of them fails.
pub open spec fn calls_made(errors: Seq<LlmError>, attempt: nat, retries: nat) -> nat
    decreases errors.len(),
{
    if errors.len() == 0 {
        0
    } else if errors[0].may_pass() && attempt < retries {
        1 + calls_made(errors.drop_first(), attempt + 1, retries)
    } else {
        1
    }
}

/// However calls fail, no more than one call and its repetitions are made; and only one
/// where the budget is used up.
pub proof fn calls_are_bounded(errors: Seq<LlmError>, attempt: nat, retries: nat)
    requires
        attempt <= retries,
    ensures
        calls_made(errors, attempt, retries) <= retries - attempt + 1,
        errors.len() > 0 && errors[0] is Budget ==> calls_made(errors, attempt, retries) == 1,
    decreases errors.len(),
{
    if errors.len() > 0 && errors[0].may_pass() && attempt < retries {
        calls_are_bounded(errors.drop_first(), attempt + 1, retries);
    }
}

/// The text for a reply that reports a failure.
pub fn http_error(status: &str, body: &str) -> (r: LlmError)
    ensures
        r matches LlmError::Api(m) && m@ == "HTTP "@ + status@ + ": "@ + body@,
{
    LlmError::Api("HTTP ".to_owned().concat(status).concat(": ").concat(body))
}

/// What a call gave, from the first message of the reply and its tokens.
pub fn chat_outcome(
    config: &LlmConfig,
    choice: Option<Message>,
    usage: Option<TokenUsage>,
) -> (r: Result<ChatOutcome, LlmError>)
    ensures
        match r {
            Ok(o) => {
                &&& choice is Some
                &&& o.content == choice->0.content
                &&& o.tool_calls == choice->0.tool_calls
                &&& o.model@ == config.provider@ + "/"@ + config.model@
                &&& o.usage == (match usage {
                    Some(u) => u,
                    None => TokenUsage { prompt_tokens: 0, completion_tokens: 0, total_tokens: 0 },
                })
            },
            Err(e) => choice is None && (e matches LlmError::Parse(m) && m@
                == "响应中没有 choices"@),
        },
{
    match choice {
        Some(m) => Ok(
            ChatOutcome {
                content: m.content,
                model: config.label(),
                usage: match usage {
                    Some(u) => u,
                    None => TokenUsage::default(),
                },
                tool_calls: m.tool_calls,
            },
        ),
        None => Err(LlmError::Parse("响应中没有 choices".to_owned())),
    }
}

// ---- descriptions ----

/// One description made of several.
#[derive(Debug)]
pub struct DescriptionFusion {
    pub text: String,
    /// The model and its tokens, where one was called.
    pub llm: Option<(String, TokenUsage)>,
    /// Why no model was called.
    pub degraded: Option<String>,
}

/// What to do about several descriptions.
#[derive(Debug)]
pub enum FusionPlan {
    /// The description is this one.
    Done(DescriptionFusion),
    /// A model is to be asked this.
    Ask(Vec<Message>),
}

/// The text that says that no model is set.
pub const NO_LLM: &'static str =
    "未配置 LLM（请在设置页填写 Endpoint / API Key / 模型，或设置 OPENAI_API_KEY）";

/// Description `i`, numbered.
pub open spec fn numbered_part(i: nat, d: Seq<char>, mark: Seq<char>) -> Seq<char> {
    "【第"@ + dec(i + 1) + mark + d
}

/// The descriptions, each numbered.
pub open spec fn numbered_parts(descs: Seq<Seq<char>>, mark: Seq<char>) -> Seq<Seq<char>> {
    Seq::new(descs.len(), |i: int| numbered_part(i as nat, descs[i], mark))
}

/// The question that asks a model for one description.
pub open spec fn fusion_prompt(descs: Seq<Seq<char>>) -> Seq<char> {
    "以下是一部合订本/系列合集中包含的 "@ + dec(descs.len()) + FUSION_TASK@ + join(
        numbered_parts(descs, "部】\n"@),
        "\n\n"@,
    )
}

/// What the question asks for.
pub const FUSION_TASK: &'static str =
    " 本书的简介。请把它们融合成一段 150~300 字的连贯简介：概括整部作品的整体内容，说明各部分之间的关系，保留最具代表性的情节元素与氛围描写。不要逐书罗列，不要使用标题或编号，直接输出简介正文。\n\n";

fn number_parts(descs: &Vec<String>, mark: &str) -> (r: Vec<String>)
    ensures
        strs(r@) == numbered_parts(strs(descs@), mark@),
{
    let _len: usize = descs.len();
    let ghost want = numbered_parts(strs(descs@), mark@);
    let mut out: Vec<String> = Vec::new();
    let mut i: usize = 0;
    assert(strs(out@) =~= want.take(0));
    while i < descs.len()
        invariant
            i <= descs@.len() <= usize::MAX,
            want == numbered_parts(strs(descs@), mark@),
            strs(out@) == want.take(i as int),
        decreases descs@.len() - i,
    {
        let part = "【第".to_owned().concat(&dec_u64(i as u64 + 1)).concat(mark).concat(
            &descs[i],
        );
        assert(part@ == want[i as int]);
        proof {
            strs_push(out@, part);
        }
        out.push(part);
        i += 1;
        assert(strs(out@) =~= want.take(i as int));
    }
    assert(want.take(descs@.len() as int) =~= want);
    out
}

/// The first of the texts that is not blank, as it is.
pub open spec fn first_filled(v: Seq<Seq<char>>) -> Option<Seq<char>>
    decreases v.len(),
{
    if v.len() == 0 {
        None
    } else if is_blank(v[0]) {
        first_filled(v.drop_first())
    } else {
        Some(v[0])
    }
}

proof fn tidy_has_filled(v: Seq<Seq<char>>)
    ensures
        tidy(v).len() > 0 <==> first_filled(v) is Some,
    decreases v.len(),
{
    if v.len() > 0 {
        let init = v.drop_last();
        tidy_has_filled(init);
        filled_behind(init, v.last());
        assert(init.push(v.last()) =~= v);
    }
}

proof fn filled_behind(v: Seq<Seq<char>>, x: Seq<char>)
    ensures
        first_filled(v.push(x)) == (if first_filled(v) is Some {
            first_filled(v)
        } else if is_blank(x) {
            None
        } else {
            Some(x)
        }),
    decreases v.len(),
{
    reveal_with_fuel(first_filled, 2);
    if v.len() == 0 {
        assert(v.push(x).drop_first() =~= Seq::<Seq<char>>::empty());
    } else {
        assert(v.push(x)[0] == v[0]);
        filled_behind(v.drop_first(), x);
        assert(v.push(x).drop_first() =~= v.drop_first().push(x));
    }
}

fn find_filled(v: &Vec<String>) -> (r: Option<usize>)
    ensures
        match r {
            Some(i) => i < v@.len() && first_filled(strs(v@)) == Some(v@[i as int]@),
            None => first_filled(strs(v@)) is None,
        },
{
    let ghost all = strs(v@);
    let mut i: usize = 0;
    assert(all.skip(0) =~= all);
    while i < v.len()
        invariant
            i <= v@.len(),
            all == strs(v@),
            first_filled(all) == first_filled(all.skip(i as int)),
        decreases v@.len() - i,
    {
        assert(all.skip(i as int)[0] == v@[i as int]@);
        assert(all.skip(i as int).drop_first() =~= all.skip(i + 1));
        if !blank(&v[i]) {
            return Some(i);
        }
        i += 1;
    }
    None
}

/// What to do about several descriptions: the blank ones do not count; a single one stays as
/// it is; several are put one behind the other where no model is set, and go to the model
/// where one is.
pub fn plan_fusion(descriptions: &Vec<String>, configured: bool) -> (r: FusionPlan)
    ensures
        ({
            let descs = tidy(strs(descriptions@));
            match r {
                FusionPlan::Done(f) => {
                    &&& f.llm is None
                    &&& if descs.len() == 0 {
                        f.text@.len() == 0 && f.degraded is None
                    } else if descs.len() == 1 {
                        Some(f.text@) == first_filled(strs(descriptions@)) && f.degraded is None
                    } else {
                        &&& !configured
                        &&& f.text@ == join(numbered_parts(descs, "部】"@), "\n\n"@)
                        &&& opt_str(f.degraded) == Some(NO_LLM@)
                    }
                },
                FusionPlan::Ask(ms) => {
                    &&& descs.len() > 1
                    &&& configured
                    &&& ms@.len() == 1
                    &&& ms@[0].is_plain("user"@, fusion_prompt(descs))
                },
            }
        }),
{
    let descs = tidied(descriptions);
    assert(strs(descs@).len() == descs@.len());
    if descs.len() == 0 {
        return FusionPlan::Done(
            DescriptionFusion { text: String::new(), llm: None, degraded: None },
        );
    }
    if descs.len() == 1 {
        proof {
            tidy_has_filled(strs(descriptions@));
        }
        let text = match find_filled(descriptions) {
            Some(k) => descriptions[k].as_str().to_owned(),
            None => String::new(),
        };
        return FusionPlan::Done(DescriptionFusion { text, llm: None, degraded: None });
    }
    if !configured {
        let parts = number_parts(&descs, "部】");
        return FusionPlan::Done(
            DescriptionFusion {
                text: joined(&parts, "\n\n"),
                llm: None,
                degraded: Some(NO_LLM.to_owned()),
            },
        );
    }
    let parts = number_parts(&descs, "部】\n");
    let prompt = "以下是一部合订本/系列合集中包含的 ".to_owned().concat(
        &dec_u64(descs.len() as u64),
    ).concat(FUSION_TASK).concat(&joined(&parts, "\n\n"));
    let mut ms: Vec<Message> = Vec::new();
    ms.push(Message::user(&prompt));
    FusionPlan::Ask(ms)
}

/// The description that a model gave.
pub fn fusion_of(outcome: ChatOutcome) -> (r: DescriptionFusion)
    ensures
        r.text == outcome.content,
        r.llm == Some((outcome.model, outcome.usage)),
        r.degraded is None,
{
    DescriptionFusion {
        text: outcome.content,
        llm: Some((outcome.model, outcome.usage)),
        degraded: None,
    }
}

/// The role that asks a model for a translation.
pub const TRANSLATOR: &'static str =
    "你是专业译者。将用户提供的文本翻译为流畅的简体中文，只输出译文正文，不要任何解释、注释或前后缀。";

/// What to ask a model to have a text in Chinese; the error where no model is set.
pub fn plan_translation(text: &str, configured: bool) -> (r: Result<Vec<Message>, LlmError>)
    ensures
        match r {
            Ok(ms) => configured && ms@.len() == 2 && ms@[0].is_plain("system"@, TRANSLATOR@)
                && ms@[1].is_plain("user"@, text@),
            Err(e) => !configured && (e matches LlmError::Api(m) && m@ == NO_LLM@),
        },
{
    if !configured {
        return Err(LlmError::Api(NO_LLM.to_owned()));
    }
    let mut ms: Vec<Message> = Vec::new();
    ms.push(Message::system(TRANSLATOR));
    ms.push(Message::user(text));
    Ok(ms)
}

proof fn first_named(ps: Seq<LlmProvider>, name: Option<Seq<char>>)
    ensures
        match named_provider(ps, name) {
            Some(i) => 0 <= i < ps.len() && Some(ps[i].name@) == name && forall|j: int|
                0 <= j < i ==> Some((#[trigger] ps[j]).name@) != name,
            None => forall|j: int| 0 <= j < ps.len() ==> Some((#[trigger] ps[j]).name@) != name,
        },
    decreases ps.len(),
{
    if ps.len() > 0 && name is Some && ps[0].name@ != name->0 {
        let rest = ps.drop_first();
        first_named(rest, name);
        match named_provider(rest, name) {
            Some(i) => {
                assert(rest[i] == ps[i + 1]);
                assert forall|j: int| 0 <= j < i + 1 implies Some((#[trigger] ps[j]).name@)
                    != name by {
                    if j > 0 {
                        assert(rest[j - 1] == ps[j]);
                    }
                }
            },
            None => {
                assert forall|j: int| 0 <= j < ps.len() implies Some((#[trigger] ps[j]).name@)
                    != name by {
                    if j > 0 {
                        assert(rest[j - 1] == ps[j]);
                    }
                }
            },
        }
    }
}

proof fn first_keyed(ps: Seq<LlmProvider>)
    ensures
        match keyed_provider(ps) {
            Some(i) => 0 <= i < ps.len() && !is_blank(ps[i].api_key@) && forall|j: int|
                0 <= j < i ==> is_blank((#[trigger] ps[j]).api_key@),
            None => forall|j: int| 0 <= j < ps.len() ==> is_blank((#[trigger] ps[j]).api_key@),
        },
    decreases ps.len(),
{
    if ps.len() > 0 && is_blank(ps[0].api_key@) {
        let rest = ps.drop_first();
        first_keyed(rest);
        match keyed_provider(rest) {
            Some(i) => {
                assert(rest[i] == ps[i + 1]);
                assert forall|j: int| 0 <= j < i + 1 implies is_blank(
                    (#[trigger] ps[j]).api_key@,
                ) by {
                    if j > 0 {
                        assert(rest[j - 1] == ps[j]);
                    }
                }
            },
            None => {
                assert forall|j: int| 0 <= j < ps.len() implies is_blank(
                    (#[trigger] ps[j]).api_key@,
                ) by {
                    if j > 0 {
                        assert(rest[j - 1] == ps[j]);
                    }
                }
            },
        }
    }
}

/// The model that is called is one of the provider that is chosen, or where none has that name of
/// the first that has a key, or else of the first; it is called with that provider's key and at
/// its address, and it is the model that is chosen where the provider has it, and else the
/// provider's first. Where that provider lacks a key or an address, none is called.
pub proof fn the_chosen_provider_is_called(s: LlmSettings, env: LlmEnv) -> (i: int)
    requires
        s.providers@.len() > 0,
    ensures
        0 <= i < s.providers@.len(),
        opt_str(s.default_provider) == Some(s.providers@[i].name@) || (forall|j: int|
            0 <= j < s.providers@.len() ==> Some((#[trigger] s.providers@[j]).name@) != opt_str(
                s.default_provider,
            )) && (!is_blank(s.providers@[i].api_key@) && (forall|j: int|
            0 <= j < i ==> is_blank((#[trigger] s.providers@[j]).api_key@)) || i == 0 && forall|
            j: int,
        |
            0 <= j < s.providers@.len() ==> is_blank((#[trigger] s.providers@[j]).api_key@)),
        ({
            let p = s.providers@[i];
            let r = resolved_llm(s, env);
            &&& r is None <==> is_blank(p.api_key@) || is_blank(p.base_url@)
            &&& r matches Some(c) ==> {
                &&& c.provider == p.name@
                &&& c.api_key == trim(p.api_key@)
                &&& c.base_url == trim(p.base_url@)
                &&& (s.default_model matches Some(m) && strs(p.models@).contains(m@)) ==> c.model
                    == (s.default_model->0)@
                &&& !(s.default_model matches Some(m) && strs(p.models@).contains(m@))
                    && p.models@.len() > 0 && !is_blank(p.models@[0]@) ==> c.model == trim(
                    p.models@[0]@,
                )
            }
        }),
{
    first_named(s.providers@, opt_str(s.default_provider));
    first_keyed(s.providers@);
    provider_at(s)
}

/// Without providers the model of the environment is called, with its key; none where the key is
/// blank or missing.
pub proof fn the_environment_is_asked_last(s: LlmSettings, env: LlmEnv)
    requires
        s.providers@.len() == 0,
    ensures
        resolved_llm(s, env) is Some <==> (env.api_key matches Some(k) && !is_blank(k@)),
        resolved_llm(s, env) matches Some(c) ==> c.api_key == (env.api_key->0)@ && (
        env.base_url matches Some(u) ==> c.base_url == u@) && (env.base_url is None ==> c.base_url
            == "https://api.openai.com/v1"@) && (env.model matches Some(m) ==> c.model == m@) && (
        env.model is None ==> c.model == "gpt-3.5-turbo"@),
{
}

/// A failed call is made again where the network failed or the server was busy or broken, and
/// never where the answer could not be read or the budget is used up; as often as is set but not
/// more than ten times, and each wait is twice as long as the one before it, from 600 milliseconds
/// on.
pub proof fn when_a_call_is_made_again(e: LlmError, s: LlmSettings, n: nat)
    ensures
        e is Network ==> e.may_pass(),
        e is Parse || e is Budget ==> !e.may_pass(),
        e matches LlmError::Api(m) ==> (e.may_pass() <==> "HTTP 429"@.is_prefix_of(
            trim_start(m@),
        ) || "HTTP 5"@.is_prefix_of(trim_start(m@))),
        retries_of(s) <= 10,
        s.retry_count matches Some(k) && k <= 10 ==> retries_of(s) == s.retry_count->0,
        s.retry_count matches Some(k) && k > 10 ==> retries_of(s) == 10,
        wait_before(0) == 600,
        wait_before(n + 1) == 2 * wait_before(n),
{
}

/// The question for one description holds every description under its number, and says how many
/// there are.
pub proof fn the_question_holds_every_description(descs: Seq<Seq<char>>, i: int)
    ensures
        has_part(fusion_prompt(descs), "以下是一部合订本/系列合集中包含的 "@ + dec(descs.len())),
        0 <= i < descs.len() ==> has_part(
            fusion_prompt(descs),
            "【第"@ + dec((i + 1) as nat) + "部】\n"@ + descs[i],
        ),
{
    let all = fusion_prompt(descs);
    let head = "以下是一部合订本/系列合集中包含的 "@ + dec(descs.len());
    let v = numbered_parts(descs, "部】\n"@);
    let list = join(v, "\n\n"@);
    let none = Seq::<char>::empty();
    assert(all =~= none + head + (FUSION_TASK@ + list));
    parts_stand_in_the_whole(none, head, FUSION_TASK@ + list);
    if 0 <= i < descs.len() {
        let (x, y) = parts_of_a_join(v, "\n\n"@, i);
        assert(all =~= (head + FUSION_TASK@ + x) + v[i] + y);
        parts_stand_in_the_whole(head + FUSION_TASK@ + x, v[i], y);
    }
}

/// The first text that is not blank is taken, as it is.
pub proof fn the_first_text_that_is_not_blank(v: Seq<Seq<char>>, i: int)
    requires
        0 <= i < v.len(),
        !is_blank(v[i]),
        forall|j: int| 0 <= j < i ==> is_blank(#[trigger] v[j]),
    ensures
        first_filled(v) == Some(v[i]),
    decreases v.len(),
{
    if i > 0 {
        assert(is_blank(v[0]));
        let rest = v.drop_first();
        assert forall|j: int| 0 <= j < i - 1 implies is_blank(#[trigger] rest[j]) by {
            assert(rest[j] == v[j + 1]);
        }
        the_first_text_that_is_not_blank(rest, i - 1);
    }
}

} // verus!
