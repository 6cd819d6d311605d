use mystery_novel_agent::agent::{ChatOutcome, LlmError, TokenUsage, ToolCall};
use mystery_novel_agent::chatbot::{
    chatbot_tools, check_talk, format_clasp_results, online_search, plain_messages, searches_of,
    tool_args, truncate_for_prompt, ChatMessageDto, ChatPhase, Chatbot, CHATBOT_MAX_ROUNDS,
};
use mystery_novel_agent::config::AppConfig;
use mystery_novel_agent::db::Catalog;
use mystery_novel_agent::ingestion::ClaspSearchPage;
use mystery_novel_agent::spider::ClaspBookSuggestion;

fn catalog() -> Catalog {
    let mut c = Catalog::new();
    let a = c.insert_book("白夜行", "东野圭吾", "推理小说,社会派", "/a", "[]").unwrap();
    c.insert_book("钟表馆事件", "绫辻行人", "本格", "/b", "[]").unwrap();
    c.set_book_description(a, Some("一段\"简介\""));
    c.set_book_series(a, Some("系列"), Some(2));
    c.insert_comment(a, Some(5), "非常好看", 9, "豆瓣", None).unwrap();
    c.insert_my_comment(a, "我的话").unwrap();
    c
}

fn say(role: &str, content: &str) -> ChatMessageDto {
    ChatMessageDto { role: role.into(), content: content.into() }
}

fn outcome(content: &str, calls: Vec<(&str, &str)>) -> ChatOutcome {
    ChatOutcome {
        content: content.into(),
        model: "P/m".into(),
        usage: TokenUsage { prompt_tokens: 1, completion_tokens: 1, total_tokens: 2 },
        tool_calls: if calls.is_empty() {
            None
        } else {
            Some(
                calls
                    .into_iter()
                    .map(|(n, a)| ToolCall {
                        id: format!("id-{n}"),
                        name: n.into(),
                        arguments: a.into(),
                        raw: "{}".into(),
                    })
                    .collect(),
            )
        },
    }
}

fn page() -> ClaspSearchPage {
    ClaspSearchPage {
        items: vec![ClaspBookSuggestion {
            title: "密室收藏家".into(),
            author_name: "大山诚一郎".into(),
            id: "x".into(),
            tags: vec!["本格".into()],
            cover_url: None,
            summary: Some("字".repeat(200)),
            douban_url: None,
        }],
        total_pages: 1,
        total: 1,
        fuzzy: true,
    }
}

#[test]
fn texts_are_shortened() {
    assert_eq!(truncate_for_prompt(" 一二三 ", 3), "一二三");
    assert_eq!(truncate_for_prompt("一二三四", 3), "一二三…");
}

#[test]
fn the_model_is_told_of_the_books() {
    let c = catalog();
    let t = c.build_chatbot_system(&AppConfig::default(), None);
    assert!(t.starts_with("你是本地推理小说书架应用的阅读助手「书虫」。用户正在使用「未命名书库」书库（共 2 本书）。"));
    assert!(t.contains("- 《白夜行》｜作者：东野圭吾｜状态：想读\n"));
    assert!(t.contains("  短评：非常好看\n"));
    assert!(!t.contains("我的话"));
}

#[test]
fn books_are_looked_up() {
    let c = catalog();
    assert_eq!(
        c.execute_chatbot_tool(None, "search_books", "{\"keyword\":\" 白夜 \"}", &None),
        "{\"books\":[{\"author\":\"东野圭吾\",\"book_id\":1,\"status\":\"想读\",\"tags\":\"推理小说,社会派\",\"title\":\"白夜行\"}],\"count\":1}"
    );
    assert_eq!(
        c.execute_chatbot_tool(None, "search_books", "{}", &None),
        "{\"error\":\"缺少 keyword 参数\"}"
    );
    assert!(c
        .execute_chatbot_tool(None, "filter_books", "{\"tag\":\"本格\",\"limit\":99}", &None)
        .contains("\"book_id\":2"));
    let d = c.execute_chatbot_tool(None, "get_book_detail", "{\"book_id\":1}", &None);
    assert!(d.contains("\"description\":\"一段\\\"简介\\\"\""));
    assert!(d.contains("\"series\":\"系列 #2\""));
    assert_eq!(
        c.execute_chatbot_tool(None, "get_book_detail", "{\"book_id\":7}", &None),
        "{\"error\":\"书籍不存在\"}"
    );
    assert_eq!(
        c.execute_chatbot_tool(None, "get_book_comments", "{\"book_id\":1}", &None),
        "{\"comments\":[{\"content\":\"非常好看\",\"rating\":5,\"source\":\"豆瓣\"}],\"count\":1}"
    );
    assert_eq!(
        c.execute_chatbot_tool(None, "fly", "not json", &None),
        "{\"error\":\"未知工具: fly\"}"
    );
}

#[test]
fn changes_are_only_proposed() {
    let c = catalog();
    let ask = |name: &str, args: &str| c.execute_chatbot_tool(None, name, args, &None);
    assert_eq!(
        ask("update_book_meta", "{\"book_id\":1,\"title\":\"x\"}"),
        "{\"action\":\"update_book_meta\",\"pending_confirmation\":true}"
    );
    assert_eq!(ask("update_book_meta", "{}"), "{\"error\":\"缺少 book_id 参数\"}");
    assert_eq!(ask("update_book_meta", "{\"book_id\":9}"), "{\"error\":\"书籍不存在\"}");
    assert!(ask("set_book_status", "{\"book_id\":1,\"status\":\"已读\",\"review\":\"好\"}")
        .contains("pending_confirmation"));
    assert_eq!(
        ask("set_book_status", "{\"book_id\":1,\"status\":\"弃读\"}"),
        "{\"error\":\"无效的状态:「弃读」\"}"
    );
    assert!(ask("set_book_status", "{\"book_id\":1}").contains("缺少 status"));
    assert!(ask(
        "set_book_status",
        "{\"book_id\":1,\"status\":\"已读\",\"review\":\"好\",\"generate_review\":true}"
    )
    .contains("互斥"));
    assert!(ask("set_book_status", "{\"book_id\":1,\"status\":\"在读\",\"generate_review\":true}")
        .contains("error"));
    assert!(ask("merge_books", "{\"book_ids\":[1,2]}").contains("pending_confirmation"));
    assert!(ask("merge_books", "{\"book_ids\":[1]}").contains("合并至少需要两本书"));
    assert!(ask("merge_books", "{\"book_ids\":[1,9]}").contains("书籍不存在"));
    assert_eq!(c.get_book_detail(1).unwrap().status, "想读");
}

#[test]
fn books_are_searched_online() {
    let a = tool_args("{\"keyword\":\"密室\",\"page\":0}");
    assert_eq!(online_search("search_claspclub", &a), Some(("密室".to_string(), 1)));
    assert_eq!(online_search("search_books", &a), None);
    let json = format_clasp_results(&page());
    assert!(json.contains("\"fuzzy\":true"));
    assert!(json.contains("在线书目库（非本地书架）"));
    assert!(json.contains(&format!("{}…", "字".repeat(150))));
    let c = catalog();
    let ask = |o| c.execute_chatbot_tool(None, "search_claspclub", "{\"keyword\":\"密室\"}", &o);
    assert_eq!(ask(Some(Ok(page()))), json);
    assert_eq!(ask(Some(Err("断网".into()))), "{\"error\":\"在线检索失败: 断网\"}");
    assert_eq!(ask(None), "{\"error\":\"在线检索不可用\"}");
}

#[test]
fn the_tools_are_json() {
    let t: serde_json::Value = serde_json::from_str(&chatbot_tools()).unwrap();
    let names: Vec<&str> = t
        .as_array()
        .unwrap()
        .iter()
        .map(|v| v["function"]["name"].as_str().unwrap())
        .collect();
    assert_eq!(
        names,
        [
            "search_books",
            "filter_books",
            "get_book_detail",
            "get_book_comments",
            "search_claspclub",
            "update_book_meta",
            "set_book_status",
            "merge_books"
        ]
    );
}

#[test]
fn a_talk_uses_tools_and_ends() {
    let c = catalog();
    let mut t = Chatbot::start("sys", &vec![say("system", "x"), say("user", "有什么书？")], true).unwrap();
    assert_eq!(t.msgs.len(), 2);
    assert_eq!(t.asks(), Some(true));
    let o = outcome("", vec![("search_books", "{\"keyword\":\"白夜\"}")]);
    assert_eq!(searches_of(&o), vec![None]);
    t.answered(o, &c, None, &vec![None]);
    assert_eq!(t.steps.len(), 1);
    assert_eq!(t.msgs.len(), 4);
    assert_eq!(t.msgs[3].tool_call_id.as_deref(), Some("id-search_books"));
    t.answered(outcome("有《白夜行》", vec![]), &c, None, &vec![]);
    match &t.phase {
        ChatPhase::Replied(r) => {
            assert_eq!(r.content, "有《白夜行》");
            assert_eq!(r.steps[0].tool, "search_books");
        }
        _ => panic!(),
    }
    assert_eq!(t.asks(), None);
}

#[test]
fn a_talk_uses_tools_only_so_often() {
    let c = catalog();
    let mut t = Chatbot::start("sys", &vec![say("user", "?")], true).unwrap();
    for _ in 0..CHATBOT_MAX_ROUNDS {
        t.answered(outcome("", vec![("fly", "{}")]), &c, None, &vec![None]);
        assert_eq!(t.asks(), Some(true));
    }
    t.answered(outcome("", vec![("fly", "{}")]), &c, None, &vec![None]);
    assert!(matches!(t.phase, ChatPhase::Closing));
    assert_eq!(t.asks(), Some(false));
    t.answered(outcome("完", vec![("fly", "{}")]), &c, None, &vec![None]);
    assert!(matches!(t.phase, ChatPhase::Replied(_)));
}

#[test]
fn a_model_without_tools_is_asked_without_them() {
    let mut t = Chatbot::start("sys", &vec![say("user", "?")], true).unwrap();
    t.failed(&LlmError::Api("HTTP 400: bad".into()), false);
    assert_eq!(t.asks(), Some(false));
    t.failed(&LlmError::Api("HTTP 400: bad".into()), false);
    assert!(matches!(t.phase, ChatPhase::Failed(_)));
    let mut t = Chatbot::start("sys", &vec![say("user", "?")], true).unwrap();
    t.stopped();
    match &t.phase {
        ChatPhase::Failed(e) => assert_eq!(e, "任务已取消"),
        _ => panic!(),
    }
}

#[test]
fn a_talk_needs_messages_and_a_model() {
    assert_eq!(Chatbot::start("s", &vec![], true).unwrap_err(), "消息不能为空");
    assert!(Chatbot::start("s", &vec![say("user", "x")], false).is_err());
    let many: Vec<ChatMessageDto> = (0..40).map(|i| say("user", &format!("{i}"))).collect();
    let t = Chatbot::start("s", &many, true).unwrap();
    assert_eq!(t.msgs.len(), 17);
    assert_eq!(t.msgs[1].content, "24");
    assert!(check_talk(&vec![say("system", "s")], true).is_ok());
    assert_eq!(check_talk(&vec![say("user", "s")], true).unwrap_err(), "消息序列必须以 system 开头");
    assert_eq!(check_talk(&vec![], true).unwrap_err(), "消息不能为空");
    assert_eq!(plain_messages(&many)[3].content, "3");
}

#[test]
fn a_closing_call_that_fails_says_why() {
    let c = catalog();
    let closing = || {
        let mut t = Chatbot::start("sys", &vec![say("user", "?")], true).unwrap();
        for _ in 0..CHATBOT_MAX_ROUNDS + 1 {
            t.answered(outcome("", vec![("fly", "{}")]), &c, None, &vec![None]);
        }
        assert!(matches!(t.phase, ChatPhase::Closing));
        t
    };
    let e = LlmError::Api("HTTP 500: down".into());
    let mut t = closing();
    t.failed(&e, false);
    assert!(matches!(&t.phase, ChatPhase::Failed(m) if *m == e.message()));
    let mut t = closing();
    t.failed(&e, true);
    assert!(matches!(&t.phase, ChatPhase::Failed(m) if m == "任务已取消"));
}
