use mystery_novel_agent::agent::{
    before_chat, chat_outcome, fusion_of, http_error, plan_fusion, plan_translation,
    resolve_config, retry_delay, FusionPlan, LlmConfig, LlmEnv, LlmError, Message,
};
use mystery_novel_agent::config::{AppConfig, LlmProvider, LlmSettings, ModelPricing};

fn provider(name: &str, key: &str, base: &str, models: &[&str]) -> LlmProvider {
    LlmProvider {
        name: name.into(),
        base_url: base.into(),
        api_key: key.into(),
        models: models.iter().map(|m| m.to_string()).collect(),
    }
}

#[test]
fn test_resolve_settings_priority() {
    let s = LlmSettings {
        providers: vec![
            provider("OpenAI", "sk-a", "https://a.example.com/v1", &["gpt-4o", "gpt-4o-mini"]),
            provider("DeepSeek", "sk-b", "https://b.example.com/v1", &["deepseek-chat"]),
        ],
        default_provider: Some("DeepSeek".into()),
        default_model: Some("deepseek-chat".into()),
        ..Default::default()
    };
    let cfg = LlmConfig::resolve(&s, &LlmEnv::default()).unwrap();
    assert_eq!(cfg.provider, "DeepSeek");
    assert_eq!(cfg.api_key, "sk-b");
    assert_eq!(cfg.model, "deepseek-chat");
}

#[test]
fn test_resolve_model_fallback() {
    let s = LlmSettings {
        providers: vec![provider("OpenAI", "sk-a", "https://a.example.com/v1", &["gpt-4o-mini"])],
        ..Default::default()
    };
    let cfg = LlmConfig::resolve(&s, &LlmEnv::default()).unwrap();
    assert_eq!(cfg.provider, "OpenAI");
    assert_eq!(cfg.model, "gpt-4o-mini");
    assert!(!cfg.base_url.is_empty());
}

#[test]
fn test_resolve_skip_empty_key() {
    let s = LlmSettings {
        providers: vec![
            provider("A", "  ", "https://a.example.com/v1", &["m1"]),
            provider("B", "sk-b", "https://b.example.com/v1", &["m2"]),
        ],
        ..Default::default()
    };
    let cfg = LlmConfig::resolve(&s, &LlmEnv::default()).unwrap();
    assert_eq!(cfg.provider, "B");

    let s2 = LlmSettings {
        providers: vec![provider("A", "", "https://a.example.com/v1", &["m1"])],
        default_provider: Some("A".into()),
        ..Default::default()
    };
    assert!(LlmConfig::resolve(&s2, &LlmEnv::default()).is_none());
}

#[test]
fn test_resolve_env_fallback() {
    let s = LlmSettings::default();
    assert!(LlmConfig::resolve(&s, &LlmEnv::default()).is_none());
    let env = LlmEnv { api_key: Some(" ".into()), ..Default::default() };
    assert!(LlmConfig::resolve(&s, &env).is_none());
    let env = LlmEnv { api_key: Some("sk-e".into()), ..Default::default() };
    let cfg = LlmConfig::resolve(&s, &env).unwrap();
    assert_eq!(cfg.provider, "env");
    assert_eq!(cfg.base_url, "https://api.openai.com/v1");
    assert_eq!(cfg.model, "gpt-3.5-turbo");
}

#[test]
fn test_budget_error() {
    let s = LlmSettings { budget_tokens: Some(1000), ..Default::default() };
    assert!(s.budget_error(999).is_none());
    let msg = s.budget_error(1000).unwrap();
    assert!(msg.contains("1000"), "{msg}");
    assert!(s.budget_error(5000).is_some());

    let s2 = LlmSettings::default();
    assert!(s2.budget_error(i64::MAX).is_none());
    let s3 = LlmSettings { budget_tokens: Some(0), ..Default::default() };
    assert!(s3.budget_error(99999).is_none());
}

#[test]
fn test_budget_error_not_retryable() {
    let e = LlmError::Budget("已达上限".into());
    assert!(!e.is_retryable());
}

/// Prices are in thousandths of a yuan.
#[test]
fn test_price_for() {
    let s = LlmSettings {
        pricing: vec![ModelPricing {
            model: "deepseek-chat".into(),
            input_per_m: 1500,
            output_per_m: 6000,
        }],
        ..Default::default()
    };
    assert_eq!(s.price_for("deepseek-chat"), Some((1500, 6000)));
    assert_eq!(s.price_for("DeepSeek/deepseek-chat"), Some((1500, 6000)));
    assert_eq!(s.price_for("gpt-4o-2024-08-06"), Some((18000, 72000)));
    assert_eq!(s.price_for("OpenAI/gpt-4o-mini"), Some((1100, 4300)));
    assert_eq!(s.price_for("my-private-model"), None);
}

#[test]
fn calls_are_repeated_ever_later() {
    let net = LlmError::Network("x".into());
    assert_eq!(retry_delay(&net, 0, 2), Some(600));
    assert_eq!(retry_delay(&net, 1, 2), Some(1200));
    assert_eq!(retry_delay(&net, 2, 2), None);
    assert_eq!(retry_delay(&net, 9, 10), Some(307200));
    assert_eq!(retry_delay(&http_error("429 Too Many Requests", "slow"), 0, 1), Some(600));
    assert_eq!(retry_delay(&http_error("503 Service Unavailable", ""), 0, 1), Some(600));
    assert_eq!(retry_delay(&http_error("401 Unauthorized", "key"), 0, 1), None);
    assert_eq!(retry_delay(&LlmError::Parse("x".into()), 0, 1), None);
}

#[test]
fn failures_are_told() {
    assert_eq!(http_error("401 Unauthorized", "key").message(), "API 错误: HTTP 401 Unauthorized: key");
    assert_eq!(LlmError::Network("x".into()).message(), "网络错误: x");
    assert_eq!(LlmError::Parse("x".into()).message(), "解析响应失败: x");
    assert_eq!(LlmError::Budget("x".into()).message(), "预算限制: x");
}

#[test]
fn a_call_needs_budget() {
    let mut s = LlmSettings::default();
    assert_eq!(before_chat(&s, 0).unwrap(), 2);
    s.retry_count = Some(50);
    s.budget_tokens = Some(10);
    assert_eq!(before_chat(&s, 9).unwrap(), 10);
    match before_chat(&s, 10) {
        Err(LlmError::Budget(m)) => {
            assert_eq!(m, "Token 用量 10 已达到预算 10（请在设置页调整预算或清零用量）")
        }
        _ => panic!(),
    }
}

fn config() -> LlmConfig {
    LlmConfig {
        provider: "P".into(),
        api_key: "k".into(),
        base_url: "https://x/v1".into(),
        model: "m".into(),
    }
}

#[test]
fn a_reply_is_read() {
    let c = config();
    assert_eq!(c.label(), "P/m");
    assert_eq!(c.chat_url(), "https://x/v1/chat/completions");
    let o = chat_outcome(&c, Some(Message::assistant("hi")), None).unwrap();
    assert_eq!((o.content.as_str(), o.model.as_str()), ("hi", "P/m"));
    assert_eq!(o.usage.total_tokens, 0);
    assert_eq!(
        chat_outcome(&c, None, None).unwrap_err().message(),
        "解析响应失败: 响应中没有 choices"
    );
    assert_eq!(Message::system("s").role, "system");
    assert_eq!(Message::user("s").role, "user");
}

#[test]
fn the_environment_is_the_last_resort() {
    let mut env = LlmEnv::default();
    assert!(LlmConfig::from_env(&env).is_none());
    env.api_key = Some("k".into());
    let c = LlmConfig::from_env(&env).unwrap();
    assert_eq!(c.model, "gpt-3.5-turbo");
    let app = AppConfig::default();
    assert_eq!(resolve_config(&app, &env).unwrap().api_key, "k");
}

#[test]
fn descriptions_are_fused() {
    let one = vec!["  ".to_string(), " 甲 ".to_string()];
    match plan_fusion(&one, true) {
        FusionPlan::Done(f) => assert_eq!((f.text.as_str(), f.degraded), (" 甲 ", None)),
        _ => panic!(),
    }
    let two = vec!["甲".to_string(), "乙".to_string()];
    match plan_fusion(&two, false) {
        FusionPlan::Done(f) => {
            assert_eq!(f.text, "【第1部】甲\n\n【第2部】乙");
            assert!(f.degraded.unwrap().starts_with("未配置 LLM"));
        }
        _ => panic!(),
    }
    match plan_fusion(&two, true) {
        FusionPlan::Ask(m) => {
            assert_eq!(m.len(), 1);
            assert_eq!(m[0].role, "user");
            assert!(m[0].content.starts_with("以下是一部合订本/系列合集中包含的 2 本书的简介。"));
            assert!(m[0].content.ends_with("【第1部】\n甲\n\n【第2部】\n乙"));
        }
        _ => panic!(),
    }
    match plan_fusion(&vec![], true) {
        FusionPlan::Done(f) => assert_eq!(f.text, ""),
        _ => panic!(),
    }
    let o = chat_outcome(&config(), Some(Message::assistant("合")), None).unwrap();
    let f = fusion_of(o);
    assert_eq!(f.text, "合");
    assert_eq!(f.llm.unwrap().0, "P/m");
}

#[test]
fn a_text_is_translated() {
    let m = plan_translation("hello", true).unwrap();
    assert_eq!((m.len(), m[1].content.as_str()), (2, "hello"));
    assert!(plan_translation("hello", false).unwrap_err().message().contains("未配置 LLM"));
}
