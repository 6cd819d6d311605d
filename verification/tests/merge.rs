use mystery_novel_agent::db::{Catalog, SourceRow};
use mystery_novel_agent::merge::{
    chapter_title, collect_descriptions, cover_entry_name, enough_books, epub_path,
    joined_descriptions, merged_author, merged_book, merged_cover_name, merged_file_name,
    merged_title, missing_epub, parse_ids, source_row_to_pending, volume_href, volume_line,
    volume_prefix,
};
use mystery_novel_agent::queries::SeriesBook;

fn strings(v: &[&str]) -> Vec<String> {
    v.iter().map(|s| s.to_string()).collect()
}

fn source(kind: &str, ref_key: &str) -> SourceRow {
    SourceRow {
        kind: kind.to_string(),
        ref_key: ref_key.to_string(),
        position: 0,
        title: None,
        author: None,
        cover_url: None,
        cover_path: None,
        summary: None,
        tags: None,
        series_name: None,
        series_order: None,
        editions: None,
    }
}

/// A catalogue with two volumes of a series and a third book.
fn catalog() -> (Catalog, i64, i64, i64) {
    let mut c = Catalog::new();
    let a = c.insert_book("上册", "甲", "推理小说,本格", "/a.epub", "[\"x\"]").unwrap();
    let b = c.insert_book("下册", "甲", "推理小说,密室", "/b.epub", "[\"x\",\"y\"]").unwrap();
    let o = c.insert_book("别的", "乙", "推理小说", "/o.epub", "[]").unwrap();
    c.set_book_series(a, Some("馆"), Some(1));
    c.set_book_series(b, Some("馆"), Some(2));
    c.set_library_file(a, "a.epub");
    c.set_library_file(b, "b.epub");
    c.set_book_description(a, Some("一"));
    c.insert_source(a, source("clasp", "x")).unwrap();
    c.insert_source(b, source("clasp", "y")).unwrap();
    c.insert_comment(a, Some(5), "好", 3, "豆瓣", Some("x")).unwrap();
    c.insert_comment(b, None, "坏", 1, "豆瓣", Some("y")).unwrap();
    (c, a, b, o)
}

#[test]
fn identifiers_are_read() {
    assert_eq!(parse_ids("1, 2,3").unwrap(), vec![1, 2, 3]);
    assert!(parse_ids("1,x").is_err());
    assert!(enough_books(2).is_ok());
    assert_eq!(enough_books(1).unwrap_err(), "合并至少需要两本书。");
}

#[test]
fn books_to_merge_must_exist() {
    let (c, a, b, _) = catalog();
    let books = c.books_to_merge(&vec![b, a]).unwrap();
    assert_eq!((books[0].id, books[1].id), (b, a));
    assert!(c.books_to_merge(&vec![a, 99]).is_err());
    assert_eq!(epub_path("/lib", &books[1]), "/lib/a.epub");
    assert_eq!(epub_path("/lib/", &books[1]), "/lib/a.epub");
    assert!(missing_epub("/lib/a.epub", "上册").contains("上册"));
}

#[test]
fn books_are_merged_into_one() {
    let (mut c, a, b, o) = catalog();
    let books = c.get_books_by_series("馆");
    assert_eq!(books.len(), 2);
    let plan = c
        .plan_merge(books, strings(&["/lib/a.epub", "/lib/b.epub"]), &vec![None, Some("二".into())], &strings(&["推理小说"]))
        .unwrap();
    assert_eq!(plan.descriptions, strings(&["一", "二"]));
    assert_eq!(plan.clasp_union, strings(&["x", "y"]));
    assert_eq!(plan.tags, "推理小说, 本格, 密室");
    let m = merged_book(&plan, Some("合".into()), "/lib/m.epub".into(), "m.epub".into(), None);
    assert_eq!(m.description, "合");
    assert_eq!(m.merged_from, vec![a, b]);
    let (id, gone) = c.apply_merge(&m, Some("lib")).unwrap();
    assert!(gone.is_empty());
    let d = c.get_book_detail(id).unwrap();
    assert_eq!(d.merged_from.as_deref(), Some(format!("[{a},{b}]").as_str()));
    assert_eq!(d.library_file.as_deref(), Some("m.epub"));
    assert_eq!(c.list_sources(id).len(), 2);
    assert_eq!(c.get_comments_for_book(id).len(), 2);
    assert!(c.get_book_detail(a).is_none());
    assert!(c.get_book_detail(b).is_none());
    assert!(c.get_book_detail(o).is_some());
}

#[test]
fn a_merge_without_room_stops() {
    let (mut c, a, b, _) = catalog();
    let books = c.get_books_by_series("馆");
    let paths = strings(&["/lib/a.epub", "/lib/b.epub"]);
    let plan = c.plan_merge(books, paths, &vec![None, None], &strings(&[])).unwrap();
    let m = merged_book(&plan, None, "/lib/m.epub".into(), "m.epub".into(), None);
    let full = c.last_book;
    c.last_book = i64::MAX;
    assert!(c.apply_merge(&m, None).is_err());
    assert_eq!(c.get_all_books().len(), 3);
    c.last_book = full;
    c.last_comment = i64::MAX;
    assert!(c.apply_merge(&m, None).is_err());
    assert_eq!(c.get_all_books().len(), 4);
    assert!(c.get_book_detail(a).is_some() && c.get_book_detail(b).is_some());
    assert_eq!(c.list_sources(full + 1).len(), 2);
    assert!(c.get_comments_for_book(full + 1).is_empty());
}

#[test]
fn descriptions_without_a_model_are_joined() {
    assert_eq!(joined_descriptions(&strings(&["一", "二"])), "一\n\n二");
    let b = SeriesBook {
        id: 1,
        title: "t".into(),
        file_path: "/f".into(),
        library_file: "".into(),
        series_order: Some(3),
        description: None,
    };
    assert_eq!(collect_descriptions(&vec![b], &vec![Some("文".into())]), strings(&["文"]));
}

#[test]
fn names_in_a_merged_book() {
    assert_eq!(merged_title(" ", &Some("馆".into()), "上册"), "馆");
    assert_eq!(merged_title(" ", &None, "上册"), "上册 合集");
    assert_eq!(merged_title("全集", &None, "上册"), "全集");
    assert_eq!(merged_author(" ", "甲"), "甲");
    assert_eq!(merged_author("乙", "甲"), "乙");
    assert_eq!(volume_prefix(2), "b2/");
    assert_eq!(volume_href(1, "Text/1.html"), "b1/Text/1.html");
    assert_eq!(chapter_title("<html><title> 第一章 </title></html>", 4), "第一章");
    assert_eq!(chapter_title("<html></html>", 4), "04");
    assert!(merged_file_name("绫辻行人", "馆").ends_with(".epub"));
    assert!(merged_cover_name(9, "/x/c.png").ends_with("png"));
    assert!(cover_entry_name("png").ends_with("png"));
    let b = SeriesBook {
        id: 7,
        title: "t".into(),
        file_path: "/f".into(),
        library_file: "l.epub".into(),
        series_order: Some(3),
        description: None,
    };
    assert!(volume_line(&b).contains("t"));
}

#[test]
fn a_source_is_carried_over() {
    let mut s = source("douban", "https://book.douban.com/subject/1/");
    s.tags = Some("[\"本格\",\"密室\"]".into());
    s.series_name = Some("馆".into());
    s.series_order = Some(2);
    let p = source_row_to_pending(s);
    assert_eq!(p.ref_key, "https://book.douban.com/subject/1/");
    assert_eq!(p.tags, Some(strings(&["本格", "密室"])));
    assert_eq!(p.series, Some(("馆".to_string(), Some(2))));
    assert!(p.comments.is_empty());
}

#[test]
fn what_the_reader_wrote_stays_the_readers() {
    let (mut c, a, b, _) = catalog();
    c.insert_my_comment(a, "我的书评").unwrap();
    let books = c.get_books_by_series("馆");
    let plan = c
        .plan_merge(books, strings(&["/lib/a.epub", "/lib/b.epub"]), &vec![None, None], &vec![])
        .unwrap();
    let m = merged_book(&plan, None, "/lib/m.epub".into(), "m.epub".into(), None);
    let before: usize = c.get_comments_for_book(a).len() + c.get_comments_for_book(b).len();
    let (id, _) = c.apply_merge(&m, None).unwrap();
    let all = c.get_comments_for_book(id);
    assert_eq!(all.len(), before);
    let mine: Vec<&str> = all.iter().filter(|x| x.is_mine == 1).map(|x| x.content.as_str()).collect();
    assert_eq!(mine, vec!["我的书评"]);
}
