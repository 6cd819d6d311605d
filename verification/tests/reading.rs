use mystery_novel_agent::db::Catalog;
use mystery_novel_agent::device::{
    books_to_copy, copy_job, detect_devices, device_of, CopyCount, CopyOutcome, Disk, NO_BOOK,
};
use mystery_novel_agent::finish::{
    book_line, build_system_prompt, review_of_lines, Dialogue, FinishError, Phase, TALK_OPENING,
    TALK_REVIEW,
};
use mystery_novel_agent::listing::{
    book_cells, books_to_list, preview_of, print_summary, BatchCount, ImportOutcome,
};
use mystery_novel_agent::queries::{BookSummary, LocalBook};
use mystery_novel_agent::spider::ClaspBookMeta;

fn strings(v: &[&str]) -> Vec<String> {
    v.iter().map(|s| s.to_string()).collect()
}

fn disk(mount: &str, documents: bool, system: bool, kobo: bool, removable: bool) -> Disk {
    Disk {
        mount_point: mount.into(),
        has_documents: documents,
        has_system: system,
        has_kobo: kobo,
        removable,
    }
}

fn book(id: i64, title: &str, file: &str) -> LocalBook {
    LocalBook {
        id,
        title: title.into(),
        author: "绫辻行人".into(),
        tags: "推理小说".into(),
        status: "想读".into(),
        series_name: "馆".into(),
        series_order: Some(5),
        library_file: file.into(),
    }
}

// ---- finishing a book ----

#[test]
fn a_talk_ends_in_a_review() {
    let mut t = Dialogue::start("钟表馆", "绫辻行人", "本格", &strings(&["绝妙"]));
    assert!(t.asks_model());
    assert_eq!(t.history.len(), 2);
    assert_eq!(t.history[1].content, TALK_OPENING);
    t.answered("你喜欢吗？");
    assert!(!t.asks_model());
    t.said(" 喜欢 ");
    assert!(t.asks_model());
    assert_eq!(t.history.last().unwrap().content, "喜欢");
    t.answered("为什么？");
    t.said("/done");
    assert_eq!(t.history.last().unwrap().content, TALK_REVIEW);
    assert!(matches!(t.phase, Phase::Reviewing));
    t.answered("很好的一本书");
    match &t.phase {
        Phase::Reviewed(r) => assert_eq!(r, "很好的一本书"),
        _ => panic!(),
    }
    let roles: Vec<&str> = t.history.iter().map(|m| m.role.as_str()).collect();
    assert_eq!(roles[..3], ["system", "user", "assistant"]);
}

#[test]
fn a_talk_can_be_left() {
    let mut t = Dialogue::start("t", "a", "", &vec![]);
    assert!(t.history[0].content.contains("（暂无参考短评）"));
    t.answered("x");
    t.said("/skip");
    assert!(matches!(t.phase, Phase::Manual));
}

#[test]
fn a_failed_opening_ends_the_talk() {
    let mut t = Dialogue::start("t", "a", "", &vec![]);
    t.failed("断网");
    assert!(!t.asks_model());
    assert!(matches!(t.phase, Phase::Failed(_) | Phase::Manual));
}

#[test]
fn a_failed_answer_can_be_asked_for_again() {
    let mut t = Dialogue::start("t", "a", "", &vec![]);
    t.answered("x");
    t.said("y");
    t.failed("断网");
    assert!(matches!(t.phase, Phase::Doubting));
    t.retried(true);
    let n = t.history.len();
    assert!(t.history.len() == n);
}

#[test]
fn texts_of_finishing() {
    let b = BookSummary { id: 1, title: "钟表馆".into(), author: "绫辻行人".into() };
    assert_eq!(book_line(&b), "《钟表馆》- 绫辻行人");
    let p = build_system_prompt("钟表馆", "绫辻行人", "本格", &strings(&["一", "二"]));
    assert!(p.starts_with("你是一位资深推理小说评论家，正在帮助读者复盘刚读完的《钟表馆》（作者：绫辻行人）。"));
    assert!(p.contains("1. 一\n2. 二"));
    assert_eq!(review_of_lines(&strings(&["一", "二", "", "三"])), "一\n二");
    assert_eq!(FinishError::UserAbort.message(), "用户取消了操作");
    assert_eq!(FinishError::LlmError("x".into()).message(), "LLM 错误: x");
    assert_eq!(FinishError::DbError("x".into()).message(), "数据库错误: x");
    assert_eq!(FinishError::IoError("x".into()).message(), "IO 错误: x");
}

#[test]
fn a_review_is_kept_with_the_book_and_apart() {
    let mut c = Catalog::new();
    let id = c.insert_book("t", "a", "", "/f", "[]").unwrap();
    c.keep_review(id, "我的感想");
    assert_eq!(c.get_book_detail(id).unwrap().my_review.as_deref(), Some("我的感想"));
    let rows = c.get_comments_for_book(id);
    assert_eq!(rows.len(), 1);
    assert_eq!((rows[0].is_mine, rows[0].source.as_str()), (1, "AI助手生成"));
    assert!(c.get_top_comments(id, 5).is_empty());
}

// ---- devices ----

#[test]
fn devices_are_recognised() {
    let k = device_of(&disk("/media/kindle", true, true, false, true)).unwrap();
    assert_eq!((k.kind_label.as_str(), k.target_dir.as_str()), ("Kindle", "/media/kindle/documents"));
    assert_eq!(k.display(), "[Kindle] /media/kindle");
    let o = device_of(&disk("/media/kobo", false, false, true, true)).unwrap();
    assert_eq!((o.kind_label.as_str(), o.target_dir.as_str()), ("Kobo", "/media/kobo"));
    assert!(device_of(&disk("/", true, true, true, true)).is_none());
    assert!(device_of(&disk("//", true, true, true, true)).is_none());
    let s = device_of(&disk("/media/kindle/", true, true, false, true)).unwrap();
    assert_eq!(s.target_dir, "/media/kindle/documents");
    assert!(device_of(&disk("/data", false, false, false, false)).is_none());
    assert!(device_of(&disk("/media/usb", false, false, false, true)).is_some());
    let all = detect_devices(&vec![
        disk("/", false, false, false, false),
        disk("/media/kobo", false, false, true, true),
    ]);
    assert_eq!(all.len(), 1);
}

#[test]
fn books_are_copied_to_a_device() {
    let books = vec![book(1, "甲", ""), book(2, "乙", "yi.epub")];
    assert_eq!(books_to_copy(&books).unwrap(), vec![1]);
    assert_eq!(books_to_copy(&vec![book(1, "甲", "")]).unwrap_err(), NO_BOOK);
    let k = device_of(&disk("/media/kindle", true, true, false, true)).unwrap();
    let j = copy_job("/lib", &k, &books[1]);
    assert_eq!((j.from.as_str(), j.to.as_str()), ("/lib/yi.epub", "/media/kindle/documents/yi.epub"));
    assert_eq!(copy_job("/lib/", &k, &books[1]).from, "/lib/yi.epub");
    let mut n = CopyCount::start(3);
    n.count(CopyOutcome::Copied);
    n.count(CopyOutcome::Missing);
    n.count(CopyOutcome::Failed);
    assert_eq!(n.summary(), "\n同步完成：成功 1 本，失败 2 本");
}

// ---- lists ----

#[test]
fn books_are_listed() {
    let books = vec![book(1, "Alpha", "a"), book(2, "Beta", "b"), book(3, "alphabet", "c")];
    assert_eq!(books_to_list(&books, &Some("ALPHA".into()), None), vec![0, 2]);
    assert_eq!(books_to_list(&books, &None, Some(2)).len(), 2);
    let cells = book_cells(&books[0]);
    assert!(cells.contains(&"馆 #5".to_string()));
    assert!(cells.contains(&"1".to_string()));
}

#[test]
fn a_batch_is_counted() {
    let mut b = BatchCount::start(3);
    b.count(ImportOutcome::Imported);
    b.count(ImportOutcome::Skipped);
    b.count(ImportOutcome::Failed);
    assert_eq!(b.summary(), "\n批量导入结束：成功 1 本，跳过 1 本，失败 1 本");
}

#[test]
fn an_import_is_summed_up() {
    let m = ClaspBookMeta {
        title: "钟表馆".into(),
        author: "绫辻行人".into(),
        tags: strings(&["推理小说", "本格"]),
        clasp_ids: strings(&["c1"]),
        douban_urls: vec![],
        series_name: Some("馆".into()),
        series_order: Some(5),
    };
    let lines = print_summary(&m, 9, "很长", &Some("f.epub".into()));
    assert!(lines.contains(&"  标签: 推理小说, 本格".to_string()));
    assert!(lines.contains(&"  系列: 馆 #5".to_string()));
    assert!(lines.contains(&"  书库: f.epub".to_string()));
    assert!(lines.contains(&"  数据库 ID: 9".to_string()));
    assert_eq!(preview_of(&"字".repeat(100)).chars().count(), 60);
}
