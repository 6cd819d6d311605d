use std::io::Write;

use mystery_novel_agent::agent::{DescriptionFusion, TokenUsage};
use mystery_novel_agent::archive::{
    after_open_failure, archive_needs_fix, rebuild_via_central_directory, sanitized,
};
use mystery_novel_agent::db::{Catalog, DbError};
use mystery_novel_agent::imports::{
    after_fusion, links_in, list_douban, pick_import_description, tags_for_import,
    DescriptionChoice, DescriptionPlan, ImportAction, ImportDraft,
};
use mystery_novel_agent::ingestion::{
    brief_error, clasp_source, crawled_title_author, edition_label, epub_text,
    found_by_search,
    inherit_series, list_edition_covers, pick_silent_match, search_candidates, search_page,
    search_words, simplify_title, title_of_epub, write_covers, CancelToken, IngestionError,
    PendingSource, PreparedImport, SuggestionMatch,
};
use mystery_novel_agent::opf::{fix_opf, opf_needs_fix};
use mystery_novel_agent::records::fetched_title_author;
use mystery_novel_agent::spider::{
    ClaspAuthor, ClaspBookDetail, ClaspBookItem, ClaspBookSuggestion, ClaspBooksResp, ClaspEdition,
    ClaspImprint, ClaspPagination, ClaspSeriesInfo, ClaspTag, Comment,
};

fn suggestion(title: &str, author: &str, id: &str) -> ClaspBookSuggestion {
    ClaspBookSuggestion {
        title: title.to_string(),
        author_name: author.to_string(),
        id: id.to_string(),
        tags: vec![],
        cover_url: None,
        summary: None,
        douban_url: None,
    }
}

fn strings(v: &[&str]) -> Vec<String> {
    v.iter().map(|s| s.to_string()).collect()
}

fn pending(title: Option<&str>, author: Option<&str>) -> PendingSource {
    let mut p = PendingSource::new("");
    p.title = title.map(str::to_string);
    p.author = author.map(str::to_string);
    p
}

fn found(title: &str, author: &str) -> SuggestionMatch {
    SuggestionMatch {
        id: String::new(),
        title: title.to_string(),
        author: author.to_string(),
        tags: vec![],
        cover_url: None,
        summary: None,
        douban_url: None,
    }
}

fn edition() -> ClaspEdition {
    ClaspEdition {
        is_primary: false,
        douban_url: None,
        cover_url: None,
        publisher: None,
        imprint: None,
        binding: None,
        language: None,
        published_at: None,
        translator: None,
    }
}

#[test]
fn test_pick_silent_match_unique() {
    let items = vec![suggestion("另一个标题", "某人", "id1")];
    let picked = pick_silent_match(&items, "钟表馆事件");
    assert_eq!(picked.as_ref().map(|s| s.id.as_str()), Some("id1"));
}

#[test]
fn test_pick_silent_match_exact_title() {
    let items = vec![
        suggestion("殺人推理筆記", "甲", "id-a"),
        suggestion("杀人推理笔记（新版）", "乙", "id-b"),
    ];
    let picked = pick_silent_match(&items, "杀人推理笔记");
    assert_eq!(picked.as_ref().map(|s| s.id.as_str()), Some("id-a"));

    assert!(pick_silent_match(&items, "完全无关的书").is_none());
}

#[test]
fn nothing_is_picked_from_nothing() {
    assert!(pick_silent_match(&vec![], "钟表馆事件").is_none());
}

#[test]
fn test_fix_opf_broken_href() {
    let opf = r#"<package>
<manifest>
<item id="nav" href="../nav." media-type="application/xhtml+xml" properties="nav"/>
<item id="ch1" href="chapter1.html" media-type="application/xhtml+xml"/>
<item id="css" href="css/main.css" media-type="text/css"/>
</manifest>
<spine>
<itemref idref="nav"/>
<itemref idref="ch1"/>
</spine>
</package>"#;
    let valid = strings(&["OEBPS/chapter1.html", "OEBPS/css/main.css"]);
    let out = fix_opf(opf, &valid, "OEBPS/");
    assert!(!out.contains("nav."), "broken item 应被移除");
    assert!(!out.contains("nav."), "broken itemref 应被移除");
    assert!(out.contains("chapter1.html"), "正常 item 保留");
    assert!(out.contains("css/main.css"), "正常 css item 保留");
    assert!(!out.contains(r#"idref="nav""#));
    assert!(out.contains(r#"idref="ch1""#));
}

#[test]
fn test_dedupe_opf_manifest() {
    let opf = r#"<manifest>
<item id="main-css" href="css/main.css" media-type="text/css"/>
<item id="coverpage" href="coverpage.html" media-type="application/xhtml+xml"/>
<item id="css" href="css/main.css" media-type="text/css"/>
</manifest>"#;
    let valid = strings(&["css/main.css", "coverpage.html"]);
    let out = fix_opf(opf, &valid, "");
    assert!(out.contains(r#"<item id="main-css""#));
    assert!(out.contains("coverpage.html"));
    assert!(!out.contains(r#"id="css""#));
    assert!(!opf_needs_fix(&out, &valid, ""));
}

#[test]
fn a_sound_package_stays_as_it_is() {
    let opf = r#"<manifest><item id="a" href="a.html"/></manifest>"#;
    let valid = strings(&["a.html"]);
    assert!(!opf_needs_fix(opf, &valid, ""));
    assert_eq!(fix_opf(opf, &valid, ""), opf);
    assert!(opf_needs_fix(opf, &vec![], ""));
}

fn zipped(files: &[(&str, &[u8], bool)]) -> Vec<u8> {
    let mut w = zip::ZipWriter::new(std::io::Cursor::new(Vec::new()));
    for (name, data, packed) in files {
        let method = if *packed {
            zip::CompressionMethod::Deflated
        } else {
            zip::CompressionMethod::Stored
        };
        w.start_file(*name, zip::write::SimpleFileOptions::default().compression_method(method)).unwrap();
        w.write_all(data).unwrap();
    }
    w.finish().unwrap().into_inner()
}

#[test]
fn an_archive_is_rebuilt_from_its_directory() {
    let text = "章节正文".repeat(50);
    let raw = zipped(&[
        ("mimetype", b"application/epub+zip", false),
        ("OEBPS/a.html", text.as_bytes(), true),
    ]);
    let out = rebuild_via_central_directory(&raw).unwrap();
    assert_eq!(out.len(), 2);
    assert_eq!(out[0].name, "mimetype");
    assert_eq!(out[0].data, b"application/epub+zip");
    assert_eq!(out[1].name, "OEBPS/a.html");
    assert_eq!(out[1].data, text.as_bytes());
}

#[test]
fn a_package_in_a_rebuilt_archive_is_repaired() {
    let opf = r#"<manifest><item id="a" href="a.html"/><item id="b" href="gone.html"/></manifest>"#;
    let raw = zipped(&[
        ("mimetype", b"application/epub+zip", false),
        ("OEBPS/content.opf", opf.as_bytes(), true),
        ("OEBPS/a.html", b"<p>x</p>", true),
    ]);
    let out = rebuild_via_central_directory(&raw).unwrap();
    let fixed = out.iter().find(|e| e.name == "OEBPS/content.opf").unwrap();
    let text = String::from_utf8(fixed.data.clone()).unwrap();
    assert!(text.contains("a.html"));
    assert!(!text.contains("gone.html"));
}

#[test]
fn no_archive_is_an_error() {
    assert!(rebuild_via_central_directory(&vec![1, 2, 3]).is_err());
    assert!(rebuild_via_central_directory(&vec![0; 100]).is_err());
}

#[test]
fn an_archive_with_a_broken_package_is_rebuilt() {
    let opf = r#"<manifest><item id="a" href="a.html"/><item id="b" href="gone.html"/></manifest>"#;
    let valid = strings(&["OEBPS/c.opf", "OEBPS/a.html"]);
    assert!(!archive_needs_fix(&valid, &vec![]));
    assert!(archive_needs_fix(&valid, &vec![("OEBPS/c.opf".to_string(), opf.to_string())]));
    let raw = zipped(&[
        ("OEBPS/", b"", false),
        ("OEBPS/c.opf", opf.as_bytes(), true),
        ("OEBPS/a.html", b"<p>x</p>", false),
    ]);
    let out = sanitized(&raw).unwrap().unwrap();
    assert_eq!(out.len(), 2);
    assert_eq!((out[0].name.as_str(), out[0].method), ("OEBPS/c.opf", 8));
    assert_eq!((out[1].data.as_slice(), out[1].method), (b"<p>x</p>".as_slice(), 0));
    let text = String::from_utf8(out[0].data.clone()).unwrap();
    assert!(text.contains("a.html"));
    assert!(!text.contains("gone.html"));
}

#[test]
fn a_sound_archive_is_left_alone() {
    let opf = r#"<manifest><item id="a" href="a.html"/></manifest>"#;
    let mut raw = zipped(&[("c.opf", opf.as_bytes(), false), ("a.html", b"<p>body</p>", false)]);
    assert!(sanitized(&raw).unwrap().is_none());
    let at = raw.windows(4).position(|w| w == b"body").unwrap();
    raw[at] = b'X';
    assert!(sanitized(&raw).unwrap().is_none());
    let bad = zipped(&[("c.opf", &[0xff, 0xfe], false)]);
    assert!(sanitized(&bad).unwrap_err().message().contains("EPUB 解析失败: "));
    assert!(sanitized(&vec![1, 2, 3]).unwrap_err().message().contains("无法自动修复"));
}

#[test]
fn an_archive_that_repeats_a_name_is_rebuilt() {
    let mut raw = zipped(&[("a1.html", b"one", false), ("a2.html", b"two", false)]);
    let places: Vec<usize> = (0..raw.len() - 7).filter(|i| &raw[*i..*i + 7] == b"a2.html").collect();
    for p in places {
        raw[p + 1] = b'1';
    }
    let out = sanitized(&raw).unwrap().unwrap();
    assert_eq!(out.len(), 1);
    assert_eq!((out[0].name.as_str(), out[0].data.as_slice()), ("a1.html", b"one".as_slice()));
}

#[test]
fn the_tags_of_several_entries_are_united() {
    let entry = |id: &str, tags: &[&str]| {
        let mut m = found("题", "人");
        m.id = id.to_string();
        m.tags = strings(tags);
        m
    };
    let two = vec![entry("1", &["本格"]), entry("2", &["本格", " 密室 "])];
    assert_eq!(
        tags_for_import(&vec![], &two, &strings(&["推理小说"])),
        strings(&["本格", "密室", "推理小说"])
    );
    assert_eq!(
        tags_for_import(&strings(&["馆"]), &two, &strings(&["本格"])),
        strings(&["馆", "本格", "密室"])
    );
    assert_eq!(
        tags_for_import(&strings(&["馆"]), &vec![entry("1", &["本格"])], &strings(&["推理小说"])),
        strings(&["馆", "推理小说"])
    );
    assert_eq!(tags_for_import(&vec![], &vec![], &vec![]), strings(&["推理小说"]));
}

#[test]
fn only_a_broken_directory_is_worked_around() {
    assert!(after_open_failure("Duplicate filename: a.html").is_ok());
    match after_open_failure("no such file") {
        Err(e) => assert_eq!(
            e.message(),
            "EPUB 处理错误: EPUB 解析失败（zip 结构损坏，无法自动修复）: no such file"
        ),
        Ok(_) => panic!("应当失败"),
    }
}

#[test]
fn test_inherit_series() {
    let pair = |n: &str, o: Option<i64>| (n.to_string(), o);
    assert_eq!(inherit_series(&vec![]), None);
    assert_eq!(
        inherit_series(&vec![pair("馆系列", Some(5))]),
        Some(("馆系列".into(), Some(5)))
    );
    assert_eq!(
        inherit_series(&vec![pair("馆系列", Some(5)), pair("馆系列", Some(5))]),
        Some(("馆系列".into(), Some(5)))
    );
    assert_eq!(
        inherit_series(&vec![pair("馆系列", None), pair("馆系列", Some(5))]),
        Some(("馆系列".into(), Some(5)))
    );
    assert_eq!(
        inherit_series(&vec![pair("馆系列", None), pair("馆系列", None)]),
        Some(("馆系列".into(), None))
    );
    assert_eq!(
        inherit_series(&vec![pair("馆系列", Some(1)), pair("馆系列", Some(5))]),
        Some(("馆系列".into(), Some(1)))
    );
    assert_eq!(
        inherit_series(&vec![pair("馆系列", Some(5)), pair("伽利略系列", Some(5))]),
        None
    );
}

#[test]
fn test_crawled_title_author() {
    let none: Vec<PendingSource> = vec![];
    let no_match: Vec<SuggestionMatch> = vec![];

    let (t, a) = crawled_title_author(
        "EPUB旧标题",
        "EPUB旧作者",
        &vec![pending(Some("鐘錶館事件"), Some("綾辻行人"))],
        &no_match,
        &none,
    );
    assert_eq!(t, "钟表馆事件");
    assert_eq!(a, "綾辻行人");

    let (t, a) = crawled_title_author(
        "",
        "",
        &vec![pending(Some("馆系列合集"), Some("绫辻行人")), pending(None, Some("绫辻行人"))],
        &no_match,
        &none,
    );
    assert_eq!(t, "馆系列合集");
    assert_eq!(a, "绫辻行人");

    let (t, a) = crawled_title_author(
        "EPUB标题",
        "EPUB作者",
        &vec![pending(None, None)],
        &vec![found("搜索标题", "作者甲"), found("搜索标题2", "作者乙")],
        &none,
    );
    assert_eq!(t, "搜索标题");
    assert_eq!(a, "作者甲、作者乙");

    let (t, a) = crawled_title_author(
        "EPUB标题",
        "",
        &none,
        &no_match,
        &vec![pending(Some("豆瓣标题"), Some("豆瓣作者"))],
    );
    assert_eq!(t, "豆瓣标题");
    assert_eq!(a, "豆瓣作者");

    let (t, a) = crawled_title_author("EPUB标题", "EPUB作者", &none, &no_match, &none);
    assert_eq!(t, "EPUB标题");
    assert_eq!(a, "EPUB作者");

    let (t, _) = crawled_title_author(
        "EPUB标题",
        "",
        &vec![pending(Some("Murder on the Links"), None)],
        &no_match,
        &none,
    );
    assert_eq!(t, "Murder on the Links");
}

fn prepared() -> PreparedImport {
    let mut source = PendingSource::new("clasp-1");
    source.title = Some("钟表馆事件".into());
    source.author = Some("绫辻行人".into());
    source.summary = Some("无剧透简介".into());
    source.comments = vec![Comment {
        rating: Some(4),
        content: "这是一条足够长的短评，用于通过质量过滤的检验标准。".into(),
        usefulness: 12,
    }];
    PreparedImport {
        file_path: "E:\\books\\原始.epub".into(),
        original_path: "E:\\books\\原始.epub".into(),
        title: "钟表馆事件".into(),
        author: "绫辻行人".into(),
        tags: vec!["本格推理".into(), "推理小说".into()],
        description: "无剧透简介".into(),
        series_name: Some("馆系列".into()),
        series_order: Some(3),
        clasp_ids: vec!["clasp-1".into()],
        douban_urls: vec![],
        library_file: "[guan-xi-lie-3] ling-shi-xing-ren-zhong-biao-guan-shi-jian.epub".into(),
        cover_path: None,
        cover_override: None,
        sources_clasp: vec![source],
        sources_douban: vec![],
        llm_usage: vec![(
            "gpt-test".into(),
            TokenUsage { prompt_tokens: 100, completion_tokens: 50, total_tokens: 150 },
        )],
        fusion_model: Some("gpt-test".into()),
        fusion_error: None,
    }
}

#[test]
fn test_persist_import() {
    let mut c = Catalog::new();
    let id = c.persist_import(&prepared(), None, "now").unwrap();
    let detail = c.get_book_detail(id).unwrap();
    assert_eq!(detail.title, "钟表馆事件");
    assert_eq!(detail.author, "绫辻行人");
    assert_eq!(detail.tags, "本格推理, 推理小说");
    assert_eq!(detail.description.as_deref(), Some("无剧透简介"));
    assert_eq!(detail.series_name.as_deref(), Some("馆系列"));
    assert_eq!(detail.series_order, Some(3));
    assert_eq!(detail.clasp_ids.as_deref(), Some("[\"clasp-1\"]"));

    let comments = c.get_comments_for_book(id);
    assert_eq!(comments.len(), 1);
    assert_eq!(comments[0].source, "claspclub");
    assert_eq!(comments[0].source_ref.as_deref(), Some("clasp-1"));

    let sources = c.list_sources(id);
    assert_eq!(sources.len(), 1);
    assert_eq!(sources[0].kind, "clasp");
    assert_eq!(sources[0].position, 0);
    assert_eq!(sources[0].summary.as_deref(), Some("无剧透简介"));

    let usage = c.get_llm_usage();
    assert_eq!(usage.len(), 1);
    assert_eq!(usage[0].model, "gpt-test");
    assert_eq!(usage[0].calls, 1);
    assert_eq!(usage[0].total_tokens, 150);
}

#[test]
fn an_import_goes_into_its_library_and_keeps_other_books() {
    let mut c = Catalog::new();
    let other = c.insert_book("白夜行", "东野圭吾", "推理小说", "", "[]").unwrap();
    let id = c.persist_import(&prepared(), Some("L"), "now").unwrap();
    assert_ne!(id, other);
    assert_eq!(c.get_book_detail(id).unwrap().library_id.as_deref(), Some("L"));
    assert_eq!(c.get_book_detail(other).unwrap().title, "白夜行");
    c.last_source = i64::MAX;
    assert_eq!(c.persist_import(&prepared(), None, "now"), Err(DbError::Full));
    assert_eq!(c.get_all_books().len(), 3);
    assert!(c.list_sources(id + 1).is_empty());
    c.last_book = i64::MAX;
    assert_eq!(c.persist_import(&prepared(), None, "now"), Err(DbError::Full));
}

#[test]
fn tokens_that_do_not_fit_refuse_an_import() {
    let mut c = Catalog::new();
    c.record_llm_usage("gpt-test", 0, 0, i64::MAX as u64, "t");
    assert_eq!(c.persist_import(&prepared(), None, "now"), Err(DbError::Overflow));
}

#[test]
fn a_fetched_book_is_taken_once() {
    let mut c = Catalog::new();
    let fixed = strings(&["推理小说"]);
    assert_eq!(c.register_downloaded_epub("L", "a.epub", "甲", "乙", &fixed), Ok(true));
    assert_eq!(c.register_downloaded_epub("L", "a.epub", "甲", "乙", &fixed), Ok(false));
    let cards = c.get_book_cards(None, None, Some("L"));
    assert_eq!(cards.len(), 1);
    assert_eq!(cards[0].title, "甲");
    assert_eq!(cards[0].tags, "推理小说");
    let (t, a) = fetched_title_author(&None, &None, "文件名");
    assert_eq!(t, "文件名");
    assert_eq!(a, "");
    let (t, a) = fetched_title_author(&Some("書名".to_string()), &Some("某人".to_string()), "x");
    assert_eq!(t, "書名");
    assert_eq!(a, "某人");
}

#[test]
fn test_edition_label() {
    let mut e = edition();
    e.cover_url = Some("https://example.com/douban-222.jpg".into());
    e.publisher = Some("人民文学出版社".into());
    e.imprint = Some(ClaspImprint {
        name: Some("午夜文库".into()),
        publisher_name: Some("新星出版社".into()),
    });
    e.published_at = Some("2013-04-01T00:00:00.000Z".into());
    e.binding = Some("平装".into());
    e.translator = Some("郑桥".into());
    assert_eq!(edition_label(&e), "人民文学出版社 · 午夜文库 · 2013 · 平装 · 郑桥");

    let mut e2 = edition();
    e2.publisher = Some("新星出版社".into());
    e2.imprint = Some(ClaspImprint { name: Some("新星出版社".into()), publisher_name: None });
    assert_eq!(edition_label(&e2), "新星出版社");
}

#[test]
fn edition_covers_are_listed_and_written() {
    let mut a = edition();
    a.cover_url = Some("https://x/1.jpg".into());
    a.publisher = Some("甲".into());
    let b = edition();
    let covers = list_edition_covers(&vec![a, b]);
    assert_eq!(covers.len(), 1);
    assert_eq!(covers[0].label, "甲");
    assert_eq!(covers[0].url, "https://x/1.jpg");
    let text = write_covers(&covers);
    let v: serde_json::Value = serde_json::from_str(&text).unwrap();
    assert_eq!(v[0]["label"], "甲");
    assert_eq!(v[0]["url"], "https://x/1.jpg");
    assert!(v[0]["path"].is_null());
}

#[test]
fn a_crawled_entry_becomes_a_source() {
    let mut primary = edition();
    primary.is_primary = true;
    let detail = ClaspBookDetail {
        title: Some(" 钟表馆事件 ".into()),
        author: Some(ClaspAuthor { name: "绫辻行人".into() }),
        tags: vec![ClaspTag { name: " 本格 ".into() }, ClaspTag { name: " ".into() }],
        summary_no_spoiler: Some("  ".into()),
        cover_url: Some("https://x/douban-123.jpg".into()),
        series: Some(ClaspSeriesInfo { name: Some("馆系列".into()), order: Some(5) }),
        editions: vec![primary],
    };
    let s = clasp_source("id", &Some(detail), None);
    assert_eq!(s.ref_key, "id");
    assert_eq!(s.title.as_deref(), Some(" 钟表馆事件 "));
    assert_eq!(s.summary, None);
    assert_eq!(s.tags, Some(strings(&["本格"])));
    assert_eq!(s.series, Some(("馆系列".to_string(), Some(5))));
    assert_eq!(s.douban_url.as_deref(), Some("https://book.douban.com/subject/123/"));
    let bare = clasp_source("id", &None, None);
    assert_eq!(bare.title, None);
    assert!(bare.comments.is_empty());
}

#[test]
fn a_search_page_is_read() {
    let item = ClaspBookItem {
        id: "1".into(),
        title: " 白夜行 ".into(),
        author: None,
        authors: vec![ClaspAuthor { name: " 东野圭吾 ".into() }],
        cover_url: None,
        summary_no_spoiler: None,
        tags: vec![],
    };
    let resp = ClaspBooksResp {
        items: vec![item],
        pagination: Some(ClaspPagination { page: 1, page_size: 5, total: 11, total_pages: 3 }),
        search_mode: Some("fuzzy".into()),
    };
    let page = search_page(&resp);
    assert_eq!(page.items[0].title, "白夜行");
    assert_eq!(page.items[0].author_name, "东野圭吾");
    assert_eq!((page.total, page.total_pages, page.fuzzy), (11, 3, true));
    let (items, total) = found_by_search(Some(page));
    assert_eq!(items.len(), 0, "相近结果不算命中");
    assert_eq!(total, 11);
    let (items, total) = found_by_search(None);
    assert!(items.is_empty());
    assert_eq!(total, 0);
}

#[test]
fn the_second_search_counts_where_the_first_found_nothing() {
    let hit = || (vec![suggestion("甲", "乙", "1")], 1);
    let (items, total) = search_candidates((vec![], 0), Some(hit()));
    assert_eq!((items.len(), total), (1, 1));
    let (items, _) = search_candidates(hit(), None);
    assert_eq!(items.len(), 1);
}

#[test]
fn titles_of_files_are_searched_in_simple_characters() {
    assert_eq!(simplify_title("鐘錶館事件"), "钟表馆事件");
    let own = epub_text(&Some(" 白夜行 ".to_string()));
    assert_eq!(own.as_deref(), Some("白夜行"));
    assert_eq!(epub_text(&Some("  ".to_string())), None);
    assert_eq!(title_of_epub(&own, "/x/file.epub"), "白夜行");
    assert_eq!(title_of_epub(&None, "/x/file.epub"), "file");
    assert!(search_words("白夜行", "/x/file.epub").contains(&"白夜行".to_string()));
}

#[test]
fn a_stopped_task_says_so() {
    let mut t = CancelToken::new();
    assert!(t.check().is_ok());
    t.cancel();
    assert!(t.is_cancelled());
    match t.check() {
        Err(IngestionError::Cancelled) => {}
        _ => panic!("应当取消"),
    }
}

#[test]
fn links_are_listed_once() {
    assert_eq!(
        links_in("https://book.douban.com/subject/1/ https://book.douban.com/subject/1/"),
        strings(&["https://book.douban.com/subject/1/", "https://book.douban.com/subject/1/"])
    );
    assert_eq!(
        list_douban(
            &strings(&["https://book.douban.com/subject/1/", "b"]),
            &strings(&["https://book.douban.com/subject/1/", "c"])
        ),
        strings(&["https://book.douban.com/subject/1/", "c"])
    );
    assert_eq!(
        tags_for_import(&strings(&["本格"]), &vec![], &strings(&["推理小说", "本格"])),
        strings(&["本格", "推理小说"])
    );
}

#[test]
fn an_import_is_drafted_step_by_step() {
    let mut m = found("钟表馆事件", "绫辻行人");
    m.id = "clasp-1".to_string();
    let mut d = ImportDraft::start(
        "/x/a.epub".to_string(),
        None,
        "旧题",
        "",
        &vec![],
        &strings(&["推理小说"]),
        vec![m],
        vec![],
        false,
    );
    let go = CancelToken::new();
    let mut stopped = CancelToken::new();
    stopped.cancel();
    assert!(matches!(d.next(&stopped), Err(IngestionError::Cancelled)));
    assert!(matches!(d.next(&go), Ok(ImportAction::CrawlClasp(0, _))));
    let mut s = PendingSource::new("clasp-1");
    s.title = Some("钟表馆事件".to_string());
    s.summary = Some("简介".to_string());
    s.douban_url = Some("https://book.douban.com/subject/1/".to_string());
    d.clasp_crawled(s);
    assert!(matches!(d.next(&go), Ok(ImportAction::SettleClasp)));
    d.settle_clasp();
    assert!(matches!(d.next(&go), Ok(ImportAction::CrawlDouban(0, _))));
    d.douban_crawled(PendingSource::new("https://book.douban.com/subject/1/"));
    assert!(matches!(d.next(&go), Ok(ImportAction::SettleDouban)));
    d.settle_douban();
    assert!(matches!(d.next(&go), Ok(ImportAction::Describe(_))));
    let sources = d.description_sources();
    let choice = match pick_import_description(&sources, false, false) {
        DescriptionPlan::Done(c) => c,
        DescriptionPlan::Fuse(_) => panic!("只有一段简介"),
    };
    assert_eq!(choice.text, "简介");
    d.described(choice);
    let p = d.finish(None);
    assert_eq!(p.title, "钟表馆事件");
    assert_eq!(p.clasp_ids, strings(&["clasp-1"]));
    assert_eq!(p.douban_urls, strings(&["https://book.douban.com/subject/1/"]));
    assert_eq!(p.tags, strings(&["推理小说"]));
    assert_eq!(p.description, "简介");
}

#[test]
fn several_descriptions_are_made_one_by_a_model() {
    let two = strings(&["甲", "乙"]);
    match pick_import_description(&two, true, true) {
        DescriptionPlan::Fuse(v) => assert_eq!(v, two),
        DescriptionPlan::Done(_) => panic!("应当融合"),
    }
    match pick_import_description(&two, false, true) {
        DescriptionPlan::Done(c) => assert_eq!(c.text, "甲"),
        DescriptionPlan::Fuse(_) => panic!("不应融合"),
    }
    let made = after_fusion(
        &two,
        Ok(DescriptionFusion {
            text: "合".to_string(),
            llm: Some((
                "m".to_string(),
                TokenUsage { prompt_tokens: 1, completion_tokens: 2, total_tokens: 3 },
            )),
            degraded: None,
        }),
    );
    assert_eq!(made.text, "合");
    assert_eq!(made.llm.as_ref().map(|p| p.0.as_str()), Some("m"));
    let failed: DescriptionChoice = after_fusion(&two, Err("断网".to_string()));
    assert_eq!(failed.text, "甲");
    assert!(failed.degraded.is_some());
    assert!(brief_error(&"长".repeat(500)).chars().count() < 500);
}
