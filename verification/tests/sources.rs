use mystery_novel_agent::agent::{DescriptionFusion, TokenUsage};
use mystery_novel_agent::db::{Catalog, SourceRow};
use mystery_novel_agent::details::{
    check_kind, cover_ext_from_url, description_dto, prepared_meta, renamed, source_row_to_dto,
    EditionCoverDto, EpubMeta, MetaEdit,
};
use mystery_novel_agent::editing::{
    clasp_id_from_input, entries_in, pages_in, pages_to_crawl, refs_to_crawl, series_failure,
    tags_failure,
};
use mystery_novel_agent::importing::{
    apply_edit, content_to_dto, import_result, import_title, prepared_dto, preview_dto,
    report_to_dto, search_page_dto, search_request, sync_failure, task_of, to_suggestion_matches,
    typed_series, ImportEdit, MatchDto, MatchInfo,
};
use mystery_novel_agent::ingestion::{
    ClaspSearchPage, EpubAnalysis, PendingSource, PreparedImport,
};
use mystery_novel_agent::reader::{ReaderChapter, ReaderContent};
use mystery_novel_agent::spider::{ClaspBookSuggestion, Comment};
use mystery_novel_agent::sync::SyncReport;
use mystery_novel_agent::tasks::{ImportCache, SyncTaskRegistry, Table, TaskRegistry};

fn strings(v: &[&str]) -> Vec<String> {
    v.iter().map(|s| s.to_string()).collect()
}

fn source(kind: &str, ref_key: &str) -> SourceRow {
    SourceRow {
        kind: kind.to_string(),
        ref_key: ref_key.to_string(),
        position: 0,
        title: None,
        author: None,
        cover_url: None,
        cover_path: None,
        summary: None,
        tags: None,
        series_name: None,
        series_order: None,
        editions: None,
    }
}

fn prepared() -> PreparedImport {
    PreparedImport {
        file_path: "/in.epub".into(),
        original_path: "/in.epub".into(),
        title: "钟表馆事件".into(),
        author: "绫辻行人".into(),
        tags: strings(&["推理小说"]),
        description: "简介".into(),
        series_name: None,
        series_order: None,
        clasp_ids: strings(&["c1"]),
        douban_urls: vec![],
        library_file: "x.epub".into(),
        cover_path: Some("/covers/a.jpg".into()),
        cover_override: None,
        sources_clasp: vec![PendingSource::new("c1")],
        sources_douban: vec![],
        llm_usage: vec![],
        fusion_model: Some("P/m".into()),
        fusion_error: None,
    }
}

fn book() -> (Catalog, i64) {
    let mut c = Catalog::new();
    let id = c.insert_book("白夜行", "东野圭吾", "推理小说", "/b.epub", "[]").unwrap();
    (c, id)
}

// ---- tasks ----

#[test]
fn tasks_are_cancelled_by_their_ids() {
    let mut r = TaskRegistry::new();
    r.register_task("a");
    assert!(!r.is_cancelled("a"));
    assert!(r.cancel_task("a"));
    assert!(r.is_cancelled("a"));
    assert!(!r.cancel_task("b"));
    r.finish_task(Some("a"));
    assert!(!r.cancel_task("a"));
    r.finish_task(None);
    let mut s = SyncTaskRegistry::new();
    s.register_sync_task("a");
    assert!(s.cancel_sync_task("a"));
    assert!(s.is_cancelled("a"));
    s.register_sync_task("a");
    assert!(!s.is_cancelled("a"));
    s.finish_sync_task(Some("a"));
    assert!(!s.cancel_sync_task("a"));
}

#[test]
fn a_table_holds_one_value_for_a_key() {
    let mut t: Table<u8> = Table::new();
    t.put("k", 1);
    t.put("k", 2);
    assert!(t.has("k"));
    assert_eq!(t.take("k"), Some(2));
    assert_eq!(t.take("k"), None);
}

#[test]
fn an_import_is_claimed_once() {
    let mut c = ImportCache::new();
    c.keep("t", prepared());
    c.set_pending_cover("t", "/mine.png").unwrap();
    assert!(c.set_pending_cover("u", "/mine.png").is_err());
    let p = c.claim("t").unwrap();
    assert_eq!(p.cover_override.as_deref(), Some("/mine.png"));
    assert_eq!(c.claim("t").unwrap_err(), "导入会话不存在或已过期");
    c.keep("t", prepared());
    assert!(c.discard_import("t"));
    assert!(!c.discard_import("t"));
}

// ---- importing ----

fn suggestion() -> ClaspBookSuggestion {
    ClaspBookSuggestion {
        title: "钟表馆事件".into(),
        author_name: "绫辻行人".into(),
        id: "c1".into(),
        tags: strings(&["本格"]),
        cover_url: Some("u".into()),
        summary: None,
        douban_url: None,
    }
}

#[test]
fn a_search_is_asked_for_and_shown() {
    assert_eq!(search_request(" 馆 ", Some(0)).unwrap(), ("馆".to_string(), 1));
    assert_eq!(search_request("馆", Some(3)).unwrap().1, 3);
    assert_eq!(search_request("  ", None).unwrap_err(), "搜索关键词不能为空");
    let page = ClaspSearchPage { items: vec![suggestion()], total_pages: 2, total: 6, fuzzy: false };
    let d = search_page_dto(&page, 2);
    assert_eq!((d.page, d.total_pages, d.total, d.fuzzy), (2, 2, 6, false));
    assert_eq!(d.items[0].author, "绫辻行人");
    assert_eq!(MatchDto::from_suggestion(&suggestion()).tags, strings(&["本格"]));
    let m = to_suggestion_matches(&vec![MatchInfo {
        id: "c1".into(),
        title: "t".into(),
        author: "a".into(),
        tags: vec![],
        cover_url: None,
        summary: None,
        douban_url: None,
    }]);
    assert_eq!((m[0].id.as_str(), m[0].author.as_str()), ("c1", "a"));
}

#[test]
fn an_analysis_is_shown() {
    let a = EpubAnalysis {
        title: "t".into(),
        author: "a".into(),
        is_chinese_title: true,
        has_epub_cover: false,
        effective_path: None,
        suggestion: Some(suggestion()),
        search_results: 4,
    };
    let d = preview_dto("/in.epub", &a);
    assert_eq!((d.path.as_str(), d.search_results, d.is_chinese), ("/in.epub", 4, true));
    assert_eq!(d.matched.unwrap().id, "c1");
}

#[test]
fn an_import_is_shown_and_edited() {
    let mut p = prepared();
    let r = import_result(3, &p);
    assert_eq!((r.id, r.fusion_model.as_deref()), (3, Some("P/m")));
    let d = prepared_dto("t", &p);
    assert_eq!((d.task_id.as_str(), d.comments), ("t", 0));
    let e = ImportEdit {
        title: " 新 ".into(),
        author: " 人 ".into(),
        tags: strings(&[" 密室 ", ""]),
        description: Some(" 文 ".into()),
        series_name: Some(" 馆 ".into()),
        series_order: Some(5),
    };
    apply_edit(&mut p, &e, &strings(&["推理小说"])).unwrap();
    assert_eq!(p.title, "新");
    assert!(p.tags.contains(&"推理小说".to_string()) && p.tags.contains(&"密室".to_string()));
    assert_eq!((p.series_name.as_deref(), p.series_order), (Some("馆"), Some(5)));
    let bad = ImportEdit { title: "  ".into(), ..e };
    assert_eq!(apply_edit(&mut p, &bad, &vec![]).unwrap_err(), "书名不能为空");
    assert_eq!(p.title, "新");
    assert_eq!(import_title(" x ").unwrap(), "x");
    assert_eq!(typed_series(&Some("  ".into()), Some(2)), (None, None));
    assert_eq!(task_of(&None, 9), "prep-9");
    assert_eq!(task_of(&Some("t".into()), 9), "t");
}

#[test]
fn reports_are_shown() {
    let r = SyncReport {
        total: 1,
        uploaded: 2,
        downloaded: 3,
        deleted: 4,
        skipped: 5,
        failed: 6,
        books_imported: 7,
        books_updated: 8,
        books_deleted: 9,
        errors: strings(&["e"]),
    };
    let d = report_to_dto(r);
    assert_eq!((d.total, d.uploaded, d.downloaded, d.deleted, d.skipped), (1, 2, 3, 4, 5));
    assert_eq!((d.failed, d.books_imported, d.books_updated, d.books_deleted), (6, 7, 8, 9));
    assert_eq!(sync_failure("x", true), "同步到云端失败: x");
    assert_eq!(sync_failure("x", false), "从云端同步失败: x");
    let c = ReaderContent {
        title: "t".into(),
        chapters: vec![ReaderChapter { title: "一".into(), html: "<p/>".into() }],
    };
    assert_eq!(content_to_dto(&c).chapters[0].html, "<p/>");
}

// ---- sources ----

#[test]
fn entries_are_named() {
    assert_eq!(
        clasp_id_from_input(" https://claspclub.com/books/abc?x=1 ").as_deref(),
        Some("abc")
    );
    assert_eq!(clasp_id_from_input("abc").as_deref(), Some("abc"));
    assert_eq!(clasp_id_from_input("a/b"), None);
    assert_eq!(entries_in(&strings(&["abc", "abc", " "])).unwrap(), strings(&["abc"]));
    assert_eq!(entries_in(&strings(&["/"])).unwrap_err(), "未提供有效的 claspclub 条目");
    let link = "https://book.douban.com/subject/123/";
    assert_eq!(pages_in(&strings(&[link, link])).unwrap(), strings(&[link]));
    assert_eq!(pages_in(&strings(&["x"])).unwrap_err(), "不是有效的豆瓣书籍链接: x");
    assert_eq!(pages_in(&vec![]).unwrap_err(), "未提供豆瓣链接");
}

#[test]
fn known_sources_are_not_crawled_again() {
    let rows = vec![source("clasp", "a"), source("douban", "p")];
    assert_eq!(refs_to_crawl(&rows, "clasp", &strings(&["a", "b"])).unwrap(), strings(&["b"]));
    assert_eq!(refs_to_crawl(&rows, "clasp", &strings(&["a"])).unwrap_err(), "所选条目均已存在");
    assert_eq!(refs_to_crawl(&rows, "douban", &strings(&["p"])).unwrap_err(), "链接均已存在");
    let mut s = PendingSource::new("b");
    s.douban_url = Some("q".into());
    let mut t = PendingSource::new("c");
    t.douban_url = Some("p".into());
    assert_eq!(pages_to_crawl(&rows, &vec![s, t]), strings(&["q"]));
}

#[test]
fn sources_are_added_behind_the_others() {
    let (mut c, id) = book();
    c.insert_source(id, source("clasp", "a")).unwrap();
    let mut s = PendingSource::new("b");
    s.comments.push(Comment { rating: None, content: "评".into(), usefulness: 1 });
    c.append_pending_sources(id, "clasp", &vec![s]).unwrap();
    let rows = c.list_sources(id);
    assert_eq!(rows.len(), 2);
    assert_eq!((rows[1].ref_key.as_str(), rows[1].position), ("b", 1));
    let n = c.get_comments_for_book(id);
    assert_eq!((n.len(), n[0].source.as_str()), (1, "claspclub"));
}

#[test]
fn tags_and_series_are_set_anew_from_the_sources() {
    let (mut c, id) = book();
    c.insert_source(id, source("clasp", "a")).unwrap();
    assert_eq!(c.sources_without_tags(id), strings(&["a"]));
    assert_eq!(c.sources_without_series(id), strings(&["a"]));
    let fixed = strings(&["推理小说"]);
    assert_eq!(c.reset_book_tags(id, &fixed).unwrap(), fixed);
    assert_eq!(c.reset_book_tags(id, &vec![]).unwrap_err(), "claspclub 来源不含任何标签信息");
    assert!(c.reset_book_series(id).is_err());
    c.fill_source_tags(id, "a", &strings(&["本格"]), &Some(("馆".to_string(), Some(5))));
    assert!(c.sources_without_tags(id).is_empty());
    let tags = c.reset_book_tags(id, &fixed).unwrap();
    assert!(tags.contains(&"本格".to_string()) && tags.contains(&"推理小说".to_string()));
    assert_eq!(c.reset_book_series(id).unwrap(), ("馆".to_string(), Some(5)));
    assert_eq!(c.get_book_detail(id).unwrap().series_name.as_deref(), Some("馆"));
    assert_eq!(tags_failure("a", "x"), "获取来源 a 标签失败: x");
    assert_eq!(series_failure("a", "x"), "获取来源 a 系列失败: x");
}

#[test]
fn found_entries_are_recorded() {
    let (mut c, id) = book();
    let mut s = PendingSource::new("a");
    s.tags = Some(strings(&["本格"]));
    c.record_clasp_sources(id, &vec![s], &strings(&["推理小说"])).unwrap();
    assert_eq!(c.list_sources(id).len(), 1);
}

#[test]
fn a_source_gives_the_cover_and_the_description() {
    let (mut c, id) = book();
    let mut s = source("clasp", "a");
    s.cover_url = Some("https://x/c.png".into());
    s.summary = Some(" 简介 ".into());
    c.insert_source(id, s).unwrap();
    c.insert_source(id, source("clasp", "b")).unwrap();
    assert_eq!(c.source_cover_url(id, "clasp", "a", &None).unwrap(), "https://x/c.png");
    assert_eq!(c.source_cover_url(id, "clasp", "a", &Some("e".into())).unwrap(), "e");
    assert_eq!(c.source_cover_url(id, "clasp", "b", &None).unwrap_err(), "来源项目不存在");
    assert_eq!(c.source_cover_url(id, "clasp", "z", &None).unwrap_err(), "来源项目不存在");
    let mut blank = source("clasp", "d");
    blank.cover_url = Some(" ".into());
    c.insert_source(id, blank).unwrap();
    assert_eq!(c.source_cover_url(id, "clasp", "d", &None).unwrap_err(), "该项目没有可用封面链接");
    let d = c.set_source_as_description(id, "clasp", "a").unwrap();
    assert_eq!(d.trim(), "简介");
    assert_eq!(c.set_source_as_description(id, "clasp", "b").unwrap_err(), "该项目没有简介");
    assert!(c.source_summaries(id).is_err());
    assert_eq!(cover_ext_from_url("https://x/a.PNG?s=1"), "png");
    assert_eq!(cover_ext_from_url("https://x/a"), "jpg");
    assert!(check_kind("clasp").is_ok());
    assert_eq!(check_kind("x").unwrap_err(), "无效的来源类别");
}

#[test]
fn sources_are_reordered_and_renewed() {
    let (mut c, id) = book();
    c.insert_source(id, source("clasp", "a")).unwrap();
    let mut b = source("clasp", "b");
    b.position = 1;
    c.insert_source(id, b).unwrap();
    c.save_source_order(id, "clasp", &strings(&["b", "a"])).unwrap();
    assert_eq!(c.list_sources(id)[0].ref_key, "b");
    assert!(c.save_source_order(id, "x", &vec![]).is_err());
    let mut s = PendingSource::new("a");
    s.title = Some("新名".into());
    s.comments.push(Comment { rating: Some(3), content: "评".into(), usefulness: 0 });
    c.renew_source(id, "clasp", "a", &s, true);
    assert_eq!(c.list_sources(id)[1].title.as_deref(), Some("新名"));
    assert_eq!(c.get_comments_for_book(id).len(), 1);
}

#[test]
fn a_book_is_edited() {
    let (mut c, id) = book();
    c.set_library_file(id, "old.epub");
    let e = MetaEdit {
        title: " 新 ".into(),
        author: " 人 ".into(),
        tags: "密室".into(),
        description: Some("文".into()),
        series_name: Some("馆".into()),
        series_order: Some(2),
    };
    let m = c.edit_book(id, &e, &strings(&["推理小说"])).unwrap();
    assert_eq!((m.title.as_str(), m.author.as_str()), ("新", "人"));
    assert!(m.tags.contains(&"推理小说".to_string()));
    assert_eq!(c.get_book_detail(id).unwrap().title, "新");
    assert_eq!(c.epub_meta(id).unwrap().title, "新");
    assert_eq!(c.epub_meta(99).unwrap_err(), "书籍不存在");
    let bad = MetaEdit { title: " ".into(), ..e };
    assert_eq!(c.edit_book(id, &bad, &vec![]).unwrap_err(), "书名不能为空");
    let name = renamed(&EpubMeta {
        title: "白夜行".into(),
        author: "东野圭吾".into(),
        tags: vec![],
        description: None,
        series: None,
        library_file: Some("old.epub".into()),
    });
    assert_eq!(name.as_deref(), Some("dong-ye-gui-wu-bai-ye-xing.epub"));
}

#[test]
fn sources_and_descriptions_are_shown() {
    let mut s = source("clasp", "a");
    s.series_name = Some("馆".into());
    let d = source_row_to_dto(
        s,
        vec![EditionCoverDto { label: "初版".into(), url: "u".into(), path: None }],
    );
    assert_eq!((d.ref_key.as_str(), d.editions.len()), ("a", 1));
    let f = DescriptionFusion {
        text: "合".into(),
        llm: Some((
            "P/m".into(),
            TokenUsage { prompt_tokens: 1, completion_tokens: 1, total_tokens: 2 },
        )),
        degraded: None,
    };
    let d = description_dto(&f);
    assert_eq!((d.description.as_str(), d.model.as_deref(), d.degraded), ("合", Some("P/m"), None));
}

#[test]
fn a_review_needs_words() {
    let (mut c, id) = book();
    assert_eq!(c.save_book_review(id, "  ").unwrap_err(), "书评不能为空");
    c.save_book_review(id, " 好 ").unwrap();
    assert_eq!(c.get_book_detail(id).unwrap().my_review.as_deref(), Some("好"));
    assert!(c.get_comments_for_book(id).is_empty());
}

#[test]
fn the_file_of_an_import_gets_its_fields() {
    let mut p = prepared();
    let m = prepared_meta(&p);
    assert_eq!(m.title, "钟表馆事件");
    assert_eq!(m.description.as_deref(), Some("简介"));
    assert_eq!(m.series, None);
    assert_eq!(m.library_file.as_deref(), Some("x.epub"));
    p.description = " ".into();
    p.series_name = Some("馆系列".into());
    let m = prepared_meta(&p);
    assert_eq!(m.description, None);
    assert_eq!(m.series, Some(("馆系列".to_string(), 1)));
}
