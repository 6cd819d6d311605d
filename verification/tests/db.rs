use mystery_novel_agent::db::{Catalog, DbError, SourceRow};
use mystery_novel_agent::replace::{rebase_cover_path, CoverFile};

fn catalog_with_book() -> (Catalog, i64) {
    let mut c = Catalog::new();
    let id = c.insert_book("白夜行", "东野圭吾", "推理小说", "E:\\b.epub", "[]").unwrap();
    (c, id)
}

fn source(kind: &str, ref_key: &str, position: i64) -> SourceRow {
    SourceRow {
        kind: kind.to_string(),
        ref_key: ref_key.to_string(),
        position,
        title: None,
        author: None,
        cover_url: None,
        cover_path: None,
        summary: None,
        tags: None,
        series_name: None,
        series_order: None,
        editions: None,
    }
}

#[test]
fn test_set_book_status() {
    let (mut c, id) = catalog_with_book();

    c.set_book_status(id, "在读", "2024-01-01 10:00:00");
    let d = c.get_book_detail(id).unwrap();
    assert_eq!(d.status, "在读");
    assert!(d.finished_date.is_none());

    c.set_book_status(id, "已读", "2024-01-02 10:00:00");
    let d = c.get_book_detail(id).unwrap();
    assert_eq!(d.status, "已读");
    assert!(d.finished_date.is_some());
}

#[test]
fn a_status_keeps_the_date_of_reading() {
    let (mut c, id) = catalog_with_book();
    c.set_book_status(id, "已读", "2024-01-02 10:00:00");
    c.set_book_status(id, "想读", "2024-02-02 10:00:00");
    let d = c.get_book_detail(id).unwrap();
    assert_eq!(d.status, "想读");
    assert_eq!(d.finished_date.as_deref(), Some("2024-01-02 10:00:00"));
}

#[test]
fn test_record_llm_usage() {
    let mut c = Catalog::new();
    c.record_llm_usage("OpenAI/gpt-4o", 100, 50, 150, "t1");
    c.record_llm_usage("OpenAI/gpt-4o", 30, 20, 50, "t2");
    c.record_llm_usage("DeepSeek/deepseek-chat", 10, 5, 15, "t3");

    let rows = c.get_llm_usage();
    assert_eq!(rows.len(), 2);
    let gpt = rows.iter().find(|r| r.model == "OpenAI/gpt-4o").unwrap();
    assert_eq!(gpt.calls, 2);
    assert_eq!(gpt.prompt_tokens, 130);
    assert_eq!(gpt.total_tokens, 200);
    assert_eq!(c.llm_usage_total(), Ok(215));
    c.reset_llm_usage();
    assert_eq!(c.llm_usage_total(), Ok(0));
}

#[test]
fn usage_that_does_not_fit_is_seen_before() {
    let mut c = Catalog::new();
    assert!(c.usage_has_room("m", 1, 1, i64::MAX as u64));
    c.record_llm_usage("m", 1, 1, i64::MAX as u64, "t");
    assert!(!c.usage_has_room("m", 0, 0, 1));
    assert!(c.usage_has_room("n", 0, 0, 1));
    c.record_llm_usage("n", 0, 0, 1, "t");
    assert_eq!(c.llm_usage_total(), Err(DbError::Overflow));
}

#[test]
fn test_match_urls_and_douban_comments() {
    let (mut c, id) = catalog_with_book();

    c.set_book_match_urls(id, None, r#"["https://book.douban.com/subject/1/"]"#);
    let d = c.get_book_detail(id).unwrap();
    assert_eq!(d.clasp_ids.as_deref(), Some("[]"));
    assert_eq!(d.douban_urls.as_deref(), Some(r#"["https://book.douban.com/subject/1/"]"#));

    c.insert_comment(id, Some(4), "豆瓣短评内容足够长，用于测试过滤逻辑。", 10, "豆瓣", None).unwrap();
    c.insert_comment(id, None, "我的个人书评。", 0, "AI助手生成", None).unwrap();
    for x in c.comments.iter_mut() {
        if x.row.source != "豆瓣" {
            x.row.is_mine = 1;
        }
    }

    let deleted = c.delete_douban_comments(id);
    assert_eq!(deleted, 1);
    let rows = c.get_comments_for_book(id);
    assert_eq!(rows.len(), 1);
    assert_eq!(rows[0].is_mine, 1);
}

#[test]
fn test_cover_ref_lifecycle() {
    let (mut c, id) = catalog_with_book();
    let p = "C:\\covers\\a.jpg";

    c.cover_ref_add(p);
    c.cover_ref_add(p);

    assert!(!c.cover_ref_release(p));
    assert!(c.cover_ref_release(p));

    assert!(c.cover_ref_release("C:\\covers\\legacy.jpg"));

    let p2 = "C:\\covers\\legacy2.jpg";
    for b in c.books.iter_mut() {
        if b.id == id {
            b.cover_path = Some(p2.to_string());
        }
    }
    assert!(!c.cover_ref_release(p2));
}

#[test]
fn test_rebase_cover_path_cross_platform() {
    let files = vec![CoverFile { name: "abc.jpg".to_string(), path: "/tmp/mna-rebase/abc.jpg".to_string() }];
    let expected = "/tmp/mna-rebase/abc.jpg";

    assert_eq!(
        rebase_cover_path(r"E:\书库\covers\abc.jpg", &files).as_deref(),
        Some(expected),
        "Windows 反斜杠路径"
    );
    assert_eq!(
        rebase_cover_path("/srv/covers/abc.jpg", &files).as_deref(),
        Some(expected),
        "Unix 斜杠路径"
    );
    assert_eq!(rebase_cover_path("abc.jpg", &files).as_deref(), Some(expected), "裸文件名");
    assert_eq!(
        rebase_cover_path(r"E:\covers\missing.jpg", &files),
        None,
        "本地不存在的文件 → None"
    );
    assert_eq!(rebase_cover_path("", &files), None);
}

#[test]
fn test_replace_library_from_remote() {
    let mut local = Catalog::new();
    let mut remote = Catalog::new();

    let a = local.insert_book("旧标题A", "旧作者", "推理小说", "E:\\a.epub", "[]").unwrap();
    local.set_book_library(a, "L");
    local.update_book_enrichment(a, None, None, None, None, Some("a.epub"), Some("[]"));
    local.insert_comment(a, Some(3), "本地旧短评，长度足够。", 5, "豆瓣", None).unwrap();

    let b = local.insert_book("标题B", "作者B", "推理小说", "E:\\b.epub", "[]").unwrap();
    local.set_book_library(b, "L");
    local.update_book_enrichment(b, None, None, None, None, Some("b.epub"), Some("[]"));

    let legacy = local.insert_book("历史遗留", "佚名", "推理小说", "", "[]").unwrap();
    local.set_book_library(legacy, "L");

    let m = local.insert_book("他库书籍", "作者M", "推理小说", "E:\\m.epub", "[]").unwrap();
    local.set_book_library(m, "M");

    let ra = remote.insert_book("云端标题A", "云端作者A", "推理小说,日系", "S:\\a.epub", "[]").unwrap();
    remote.set_library_file(ra, "a.epub");
    remote.insert_comment(ra, Some(5), "云端短评一，长度足够。", 9, "豆瓣", None).unwrap();
    remote.insert_comment(ra, Some(4), "云端短评二，长度足够。", 3, "豆瓣", None).unwrap();
    let rc = remote.insert_book("云端新书C", "作者C", "推理小说", "", "[]").unwrap();
    remote.set_library_file(rc, "c.epub");

    let covers = vec![CoverFile {
        name: "cover-a.jpg".to_string(),
        path: "/tmp/mna-test-covers/cover-a.jpg".to_string(),
    }];
    for x in remote.books.iter_mut() {
        if x.id == ra {
            x.cover_path = Some("/srv/covers/cover-a.jpg".to_string());
        }
    }

    let files = vec!["a.epub".to_string(), "c.epub".to_string()];
    let stats = local.replace_library_from_remote(&remote, "L", &covers, &files).unwrap();
    assert_eq!(stats.updated, 1, "a.epub 整行覆盖");
    assert_eq!(stats.inserted, 1, "c.epub 并入");
    assert_eq!(stats.deleted, 1, "b.epub 远端已无 → 删除");

    let cards = local.get_book_cards(None, None, Some("L"));
    let ca = cards.iter().find(|c| c.id == a).unwrap();
    assert_eq!(ca.title, "云端标题A");
    assert_eq!(ca.author, "云端作者A");
    let detail = local.get_book_detail(a).unwrap();
    assert_eq!(detail.file_path.as_deref(), Some("E:\\a.epub"));
    assert!(detail.cover_path.as_deref().unwrap_or("").ends_with("cover-a.jpg"));
    let comments = local.get_comments_for_book(a);
    assert_eq!(comments.len(), 2, "本地旧短评被云端两条替换");
    assert!(!comments.iter().any(|c| c.content.contains("本地旧短评")));

    assert!(!cards.iter().any(|c| c.id == b));
    assert!(cards.iter().any(|c| c.title == "云端新书C"));

    let legacy_detail = local.get_book_detail(legacy).unwrap();
    assert_eq!(legacy_detail.title, "历史遗留");
    let m_cards = local.get_book_cards(None, None, Some("M"));
    assert_eq!(m_cards.len(), 1);
}

#[test]
fn cards_are_found_by_status_and_words() {
    let mut c = Catalog::new();
    let a = c.insert_book("Murder on the Links", "Agatha Christie", "推理小说", "", "[]").unwrap();
    let b = c.insert_book("白夜行", "东野圭吾", "推理小说", "", "[]").unwrap();
    c.set_book_status(a, "在读", "t");
    assert_eq!(c.get_book_cards(Some("在读"), None, None).len(), 1);
    let found = c.get_book_cards(None, Some("murder"), None);
    assert_eq!(found.len(), 1);
    assert_eq!(found[0].id, a);
    let found = c.get_book_cards(None, Some("东野"), None);
    assert_eq!(found.len(), 1);
    assert_eq!(found[0].id, b);
    assert_eq!(c.get_book_cards(None, Some("%"), None).len(), 2);
}

#[test]
fn series_are_listed_by_volume() {
    let mut c = Catalog::new();
    let a = c.insert_book("甲", "", "", "", "[]").unwrap();
    let b = c.insert_book("乙", "", "", "", "[]").unwrap();
    let d = c.insert_book("丙", "", "", "", "[]").unwrap();
    c.set_book_series(a, Some("馆系列"), None);
    c.set_book_series(b, Some("馆系列"), Some(2));
    c.set_book_series(d, Some("馆系列"), Some(1));
    let ids: Vec<i64> = c.get_books_by_series("馆系列").iter().map(|x| x.id).collect();
    assert_eq!(ids, vec![d, b, a]);
    assert!(c.get_books_by_series("别的").is_empty());
}

#[test]
fn sources_stand_by_kind_and_place() {
    let (mut c, id) = catalog_with_book();
    c.insert_source(id, source("douban", "u", 0)).unwrap();
    c.insert_source(id, source("clasp", "y", 1)).unwrap();
    c.insert_source(id, source("clasp", "x", 0)).unwrap();
    let refs: Vec<String> = c.list_sources(id).iter().map(|s| s.ref_key.clone()).collect();
    assert_eq!(refs, vec!["x", "y", "u"]);
    c.reorder_sources(id, "clasp", &vec!["y".to_string(), "x".to_string()]);
    c.sync_book_source_columns(id);
    let d = c.get_book_detail(id).unwrap();
    assert_eq!(d.clasp_ids.as_deref(), Some(r#"["y","x"]"#));
    assert_eq!(d.douban_urls.as_deref(), Some(r#"["u"]"#));
}

#[test]
fn a_deleted_source_takes_its_comments_and_its_cover() {
    let (mut c, id) = catalog_with_book();
    let mut row = source("clasp", "x", 0);
    row.cover_path = Some("/covers/x.jpg".to_string());
    c.insert_source(id, row).unwrap();
    c.insert_comment(id, None, "说了些什么", 1, "claspclub", Some("x")).unwrap();
    c.insert_my_comment(id, "我说的").unwrap();
    let (gone, orphans) = c.delete_source(id, "clasp", "x");
    assert!(gone);
    assert_eq!(orphans, vec!["/covers/x.jpg"]);
    let rows = c.get_comments_for_book(id);
    assert_eq!(rows.len(), 1);
    assert_eq!(rows[0].is_mine, 1);
    let (gone, orphans) = c.delete_source(id, "clasp", "x");
    assert!(!gone);
    assert!(orphans.is_empty());
}

#[test]
fn a_cover_of_two_books_is_kept_until_both_are_gone() {
    let mut c = Catalog::new();
    let a = c.insert_book("甲", "", "", "", "[]").unwrap();
    let b = c.insert_book("乙", "", "", "", "[]").unwrap();
    assert_eq!(c.update_book_cover(a, "/covers/p.jpg"), None);
    assert_eq!(c.update_book_cover(b, "/covers/p.jpg"), None);
    assert!(c.cover_has_ref("/covers/p.jpg"));
    assert!(c.delete_book(a).is_empty());
    assert_eq!(c.delete_book(b), vec!["/covers/p.jpg"]);
    assert!(!c.cover_has_ref("/covers/p.jpg"));
    assert!(c.get_book_detail(b).is_none());
}

#[test]
fn a_source_fetched_anew_gives_its_old_covers_back() {
    let (mut c, id) = catalog_with_book();
    let mut row = source("clasp", "x", 0);
    row.cover_path = Some("/covers/old.jpg".to_string());
    row.editions = Some(r#"[{"label":"a","url":"u","path":"/covers/e1.jpg"}]"#.to_string());
    row.title = Some("旧题".to_string());
    c.insert_source(id, row).unwrap();
    let mut fresh = source("clasp", "x", 0);
    fresh.cover_path = Some("/covers/new.jpg".to_string());
    fresh.tags = Some("[\"a\"]".to_string());
    let orphans = c.update_source_meta(id, &fresh);
    assert_eq!(orphans, vec!["/covers/old.jpg", "/covers/e1.jpg"]);
    let s = &c.list_sources(id)[0];
    assert_eq!(s.title.as_deref(), Some("旧题"));
    assert_eq!(s.cover_path.as_deref(), Some("/covers/new.jpg"));
    assert!(s.editions.is_none());
}

#[test]
fn counts_are_seeded_from_what_refers_to_covers() {
    let (mut c, id) = catalog_with_book();
    for b in c.books.iter_mut() {
        b.cover_path = Some("/covers/p.jpg".to_string());
    }
    let mut row = source("clasp", "x", 0);
    row.cover_path = Some("/covers/p.jpg".to_string());
    c.insert_source(id, row).unwrap();
    c.covers.clear();
    c.seed_cover_refs();
    assert_eq!(c.covers.len(), 1);
    assert_eq!(c.covers[0].refs, 2);
    let files = vec!["/covers/p.jpg".to_string(), "/covers/q.jpg".to_string()];
    assert_eq!(c.cleanup_unreferenced_covers(&files), vec!["/covers/q.jpg"]);
}

#[test]
fn legacy_books_get_a_library() {
    let (mut c, id) = catalog_with_book();
    let other = c.insert_book("甲", "", "", "", "[]").unwrap();
    c.set_book_library(other, "M");
    assert_eq!(c.assign_legacy_books("L"), 1);
    assert_eq!(c.get_book_detail(id).unwrap().library_id.as_deref(), Some("L"));
    assert_eq!(c.get_book_detail(other).unwrap().library_id.as_deref(), Some("M"));
}

#[test]
fn a_full_catalogue_takes_no_row() {
    let mut c = Catalog::new();
    c.last_book = i64::MAX;
    c.last_comment = i64::MAX;
    c.last_source = i64::MAX;
    assert_eq!(c.insert_book("甲", "", "", "", "[]"), Err(DbError::Full));
    assert_eq!(c.insert_comment(1, None, "x", 0, "豆瓣", None), Err(DbError::Full));
    assert_eq!(c.insert_my_comment(1, "x"), Err(DbError::Full));
    assert_eq!(c.insert_source(1, source("clasp", "x", 0)), Err(DbError::Full));
    assert_eq!(c.get_book_meta(1).err(), Some(DbError::NotFound));
}

#[test]
fn unfinished_books_are_those_not_read() {
    let mut c = Catalog::new();
    let a = c.insert_book("甲", "作者", "", "", "[]").unwrap();
    let b = c.insert_book("乙", "", "", "", "[]").unwrap();
    c.mark_book_finished(a, "2024-03-04 00:00:00");
    let rows = c.get_unfinished_books();
    assert_eq!(rows.len(), 1);
    assert_eq!(rows[0].id, b);
    assert_eq!(c.get_book_detail(a).unwrap().finished_date.as_deref(), Some("2024-03-04 00:00:00"));
    assert_eq!(c.get_all_books().len(), 2);
}

#[test]
fn rows_from_elsewhere_are_tested() {
    let (mut c, id) = catalog_with_book();
    c.insert_source(id, source("claspclub", "c1", 0)).unwrap();
    assert!(c.is_sound());
    c.last_book = 0;
    assert!(!c.is_sound());
    c.last_book = id;
    assert!(c.is_sound());
    c.sources[0].id = 9;
    assert!(!c.is_sound());
}

#[test]
fn sources_of_a_kind_are_cleared() {
    let (mut c, id) = catalog_with_book();
    let mut with_cover = source("claspclub", "c1", 0);
    with_cover.cover_path = Some("/covers/a.jpg".into());
    c.insert_source(id, with_cover).unwrap();
    c.insert_source(id, source("douban", "d1", 0)).unwrap();
    c.update_source_series(id, "douban", "d1", Some("馆系列"), Some(3));
    assert_eq!(c.sources[1].row.series_name.as_deref(), Some("馆系列"));
    assert_eq!(c.sources[1].row.series_order, Some(3));
    assert!(c.sources[0].row.series_name.is_none());
    assert_eq!(c.clear_sources(id, "claspclub"), vec!["/covers/a.jpg".to_string()]);
    assert_eq!(c.sources.len(), 1);
    assert_eq!(c.sources[0].row.kind, "douban");
    assert!(c.clear_sources(id, "claspclub").is_empty());
}

#[test]
fn a_cover_that_a_book_has_is_not_counted_again() {
    let (mut c, id) = catalog_with_book();
    assert_eq!(c.update_book_cover(id, "/covers/p.jpg"), None);
    let refs = |c: &Catalog| c.covers.iter().find(|r| r.path == "/covers/p.jpg").map(|r| r.refs);
    assert_eq!(refs(&c), Some(1));
    assert_eq!(c.update_book_cover(id, "/covers/p.jpg"), None);
    assert_eq!(refs(&c), Some(1));
    assert_eq!(c.update_book_cover(id, "/covers/q.jpg").as_deref(), Some("/covers/p.jpg"));
    assert_eq!(refs(&c), None);
}

#[test]
fn books_are_found_in_any_case() {
    let mut c = Catalog::new();
    c.insert_book("The ÄTHER", "Poe", "", "", "[]").unwrap();
    assert_eq!(c.get_books(None, Some("THE"), None).len(), 1);
    assert_eq!(c.get_books(None, Some("x"), None).len(), 0);
    assert_eq!(c.get_books(None, None, None).len(), 1);
}
