use mystery_novel_agent::choosing::{
    edited_fields, lookup_words, normalize_title, title_is_foreign, typed_in, ChosenBook,
    Describing, Question, Selection, Verdict,
};
use mystery_novel_agent::ingestion::IngestOptions;
use mystery_novel_agent::pictures::{
    cover_file_name, cover_tries, douban_bid, entry_picture_extension, extension_for_chosen,
    extension_for_kind, is_picture, page_picture_extension, picture_of_page, picture_referer,
    save_epub_cover, CoverTry, EpubCover,
};
use mystery_novel_agent::queries::text_mentions;
use mystery_novel_agent::spider::{ClaspBookMeta, ClaspBookSuggestion};
use mystery_novel_agent::utils::{count_han, split_tags};
use mystery_novel_agent::text::{
    dec_i64, parse_i64, parse_u64, replaced, same_ignore_case, split, split_words, trimmed,
};

fn strings(v: &[&str]) -> Vec<String> {
    v.iter().map(|s| s.to_string()).collect()
}

fn item(title: &str) -> ClaspBookSuggestion {
    ClaspBookSuggestion {
        title: title.into(),
        author_name: "a".into(),
        id: title.into(),
        tags: vec![],
        cover_url: None,
        summary: None,
        douban_url: None,
    }
}

fn selection(titles: &[&str], merged: bool, batch: bool) -> Selection {
    Selection::new(titles.iter().map(|t| item(t)).collect(), IngestOptions { merged, batch })
}

#[test]
fn what_is_asked_of_the_user() {
    assert!(matches!(selection(&[], false, false).ask(), Question::AskTitle));
    assert!(matches!(selection(&["x"], false, false).ask(), Question::ConfirmOnly));
    assert!(matches!(selection(&["x"], false, true).ask(), Question::TakeOnly));
    assert!(matches!(selection(&["x"], true, true).ask(), Question::PickMany));
    assert!(matches!(selection(&["x", "y"], false, true).ask(), Question::Menu));
}

#[test]
fn what_the_user_answers() {
    let mut s = selection(&["x", "y"], false, false);
    match s.picked(1) {
        Verdict::Chosen(v, auto) => assert_eq!((v[0].title.as_str(), auto), ("y", false)),
        _ => panic!(),
    }
    assert!(matches!(s.picked(2), Verdict::AskTitle));
    assert!(matches!(s.picked(3), Verdict::PickMany));
    assert!(matches!(s.picked(4), Verdict::Abort));
    match s.marked(&vec![1, 0]) {
        Verdict::Chosen(v, _) => assert_eq!((v[0].title.as_str(), v[1].title.as_str()), ("y", "x")),
        _ => panic!(),
    }
    assert!(matches!(s.marked(&vec![]), Verdict::Again));
    match s.titled(" 馆 ") {
        Verdict::Search(t) => assert_eq!(t, "馆"),
        _ => panic!(),
    }
    assert!(matches!(s.titled(" "), Verdict::TypeIn));
    let one = selection(&["x"], false, true);
    assert!(matches!(one.take_only(), Verdict::Chosen(_, true)));
    assert!(matches!(one.confirmed(false), Verdict::AskTitle));
    s.searched(vec![item("z")]);
    assert!(matches!(s.ask(), Question::ConfirmOnly));
}

#[test]
fn titles_are_simplified_and_checked() {
    assert!(title_is_foreign("Murder"));
    assert!(!title_is_foreign("鐘錶館"));
    assert_eq!(normalize_title("鐘錶館", ""), "钟表馆");
    assert_eq!(normalize_title("Murder", "谋杀"), "谋杀");
    assert_eq!(normalize_title("Murder", " "), "Murder");
    assert_eq!(typed_in("t".into(), "a".into()).title, "t");
    assert_eq!(lookup_words(&Some("书名".into()), "/x/文件.epub"), strings(&["书名", "文件"]));
    let f = edited_fields("t".into(), "a".into(), "本格，密室", "旧", " ");
    assert_eq!(f.description, "旧");
    assert_eq!(f.tags.len(), 2);
}

fn chosen(clasp: &[&str], douban: &[&str]) -> ChosenBook {
    let mut b = ChosenBook::start(ClaspBookMeta::from_suggestions(&vec![item("馆")]));
    b.clasp_summaries = strings(clasp);
    b.douban_summaries = strings(douban);
    b
}

#[test]
fn the_description_is_settled_or_asked_for() {
    let settled = |b: &ChosenBook, model: bool| match b.describe(model) {
        Describing::Settled(t) => t,
        _ => panic!(),
    };
    assert_eq!(settled(&chosen(&[], &[]), true), "");
    assert_eq!(settled(&chosen(&[" 一 "], &["二", "三"]), true), " 一 ");
    assert_eq!(settled(&chosen(&[], &["二"]), false), "二");
    let several = chosen(&["一", "二"], &["三"]);
    match several.describe(true) {
        Describing::Ask(v) => assert_eq!(v, strings(&["一", "二"])),
        _ => panic!(),
    }
    match chosen(&[], &["三", "四"]).describe(false) {
        Describing::First(v) => assert_eq!(v, strings(&["三", "四"])),
        _ => panic!(),
    }
}

#[test]
fn a_book_is_recorded_as_found_where_nothing_is_asked() {
    let mut b = chosen(&[], &[]);
    assert!(!b.looks_for_cover());
    b.meta.douban_urls = strings(&["https://book.douban.com/subject/1/"]);
    assert!(b.looks_for_cover());
    b.meta.douban_urls = vec![];
    b.cover_urls = strings(&["https://x/c.jpg"]);
    assert!(b.looks_for_cover());
    b.meta.tags = strings(&["本格"]);
    let f = b.unasked_fields(true, true, "简介").unwrap();
    assert_eq!((f.title.as_str(), f.author.as_str()), ("馆", "a"));
    assert_eq!((f.tags, f.description.as_str()), (strings(&["本格"]), "简介"));
    assert!(b.unasked_fields(false, true, "").is_none());
    assert!(b.unasked_fields(true, false, "").is_none());
}

#[test]
fn long_texts_are_searched() {
    let long = "ab".repeat(20_000) + "钟表馆";
    assert!(text_mentions(&long, "钟_馆"));
    assert!(text_mentions(&long, "b%表"));
    assert!(!text_mentions(&long, "表钟"));
}

#[test]
fn counts_add_up_and_tags_stay_tags() {
    let (a, b) = ("钟表 clock ", "馆〇x");
    assert_eq!(count_han(&format!("{a}{b}")), count_han(a) + count_han(b));
    let tags = split_tags(" 本格 ，, 密室,");
    assert_eq!(tags, strings(&["本格", "密室"]));
    for t in &tags {
        assert_eq!(split_tags(t), vec![t.clone()]);
    }
}

#[test]
fn pictures_are_named_by_their_bytes() {
    let n = cover_file_name(0xab, 12, "jpg");
    assert!(n.ends_with(".jpg"));
    assert_ne!(n, cover_file_name(0xab, 13, "jpg"));
    assert_ne!(n, cover_file_name(0xac, 12, "jpg"));
    assert_eq!(extension_for_kind("png"), "png");
    assert_eq!(extension_for_kind("jpeg"), "jpg");
    assert_eq!(extension_for_chosen("/x/a.WEBP"), "webp");
    assert!(save_epub_cover(None, "/c").is_none());
    let c = |bytes: &[u8]| EpubCover { subtype: "png".into(), hash: 1, bytes: bytes.to_vec() };
    let p = save_epub_cover(Some(c(b"png")), "/c").unwrap();
    assert!(p.path.starts_with("/c/") && p.path.ends_with(".png"));
    assert_eq!(p.bytes, b"png");
    assert_eq!(save_epub_cover(Some(c(b"png")), "/c/").unwrap().path, p.path);
    assert_eq!(save_epub_cover(Some(c(b"png")), "/c").unwrap().path, p.path);
    assert!(save_epub_cover(Some(c(b"")), "/c").is_none());
}

#[test]
fn pictures_are_tried_in_order() {
    let t = cover_tries(&strings(&["u"]), &strings(&["p"]));
    assert!(matches!(&t[0], CoverTry::Picture(u) if u == "u"));
    assert!(matches!(&t[1], CoverTry::Page(p) if p == "p"));
    assert!(!is_picture(false, 5000));
    assert!(!is_picture(true, 0));
    assert!(is_picture(true, 100000));
    assert_eq!(entry_picture_extension("https://x/a.png"), "png");
    assert_eq!(page_picture_extension("https://x/a.jpg"), "jpg");
    assert_eq!(picture_referer("https://img1.doubanio.com/x.jpg").0, "https://book.douban.com/");
    assert_eq!(picture_referer("https://oss/x.jpg").0, "https://claspclub.com/");
    assert_eq!(douban_bid(12345).chars().count(), 11);
}

#[test]
fn a_page_names_its_picture() {
    let a = r#"<meta property="og:image" content="https://x/1.jpg"/>"#;
    let b = r#"<meta content="https://x/2.jpg" property="og:image"/>"#;
    let c = "<div id=\"mainpic\" class=\"\"><a><img src=\"https://x/3.jpg\"></a></div>";
    assert_eq!(picture_of_page(a).as_deref(), Some("https://x/1.jpg"));
    assert_eq!(picture_of_page(b).as_deref(), Some("https://x/2.jpg"));
    assert_eq!(picture_of_page(c).as_deref(), Some("https://x/3.jpg"));
    assert_eq!(picture_of_page("<p/>"), None);
}

#[test]
fn texts() {
    assert_eq!(trimmed("\u{3000} a \n"), "a");
    assert_eq!(split("a,b，c", &vec![',', '，']), strings(&["a", "b", "c"]));
    assert_eq!(split_words(" a  b "), strings(&["a", "b"]));
    assert_eq!(parse_i64("-12"), Some(-12));
    assert_eq!(parse_i64("9223372036854775808"), None);
    assert_eq!(parse_u64("12x"), None);
    assert_eq!(dec_i64(i64::MIN), "-9223372036854775808");
    assert!(same_ignore_case("AbC", "aBc"));
    assert_eq!(replaced("aXbX", "X", "--"), "a--b--");
}
