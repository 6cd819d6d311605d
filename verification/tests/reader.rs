use mystery_novel_agent::db::Catalog;
use mystery_novel_agent::reader::{
    assemble, base64_encode, base_dir_of, resolve_ref, sanitize_and_inline, Page, ReaderImages,
    MAX_IMAGE_BYTES, TOTAL_INLINE_BUDGET,
};
use mystery_novel_agent::shelf::{cover_rel, escape, render_card, shelf_page, SHELF_FILE};

#[test]
fn test_base64_encode() {
    assert_eq!(base64_encode(b""), "");
    assert_eq!(base64_encode(b"f"), "Zg==");
    assert_eq!(base64_encode(b"fo"), "Zm8=");
    assert_eq!(base64_encode(b"foo"), "Zm9v");
    assert_eq!(base64_encode(b"foobar"), "Zm9vYmFy");
    assert_eq!(base64_encode(&[0xFF, 0xD8, 0xFF]), "/9j/");
}

#[test]
fn test_resolve_ref() {
    assert_eq!(resolve_ref("/OEBPS/text/", "img/pic.jpg"), "/OEBPS/text/img/pic.jpg");
    assert_eq!(resolve_ref("/OEBPS/", "cover.jpg"), "/OEBPS/cover.jpg");
    assert_eq!(resolve_ref("/OEBPS/text/", "../images/p.jpg"), "/OEBPS/images/p.jpg");
    assert_eq!(resolve_ref("/OEBPS/text/", "/img/x.png"), "/img/x.png");
    assert_eq!(resolve_ref("/OEBPS/", "a.png?v=1#x"), "/OEBPS/a.png");
}

#[test]
fn test_sanitize_and_inline() {
    let mut images = ReaderImages::new();
    images.offer("OEBPS/pic.jpg", "jpeg", vec![0xFF, 0xD8, 0xFF]);
    let html = r#"<html><head><script>alert(1)</script></head>
      <body onload="evil()" onclick='x()'>
      <img src="pic.jpg"/><img src="../missing.png"/><iframe src="x"></iframe>
      </body></html>"#;
    let out = sanitize_and_inline(html, "/OEBPS/", &images);
    assert!(!out.contains("script"), "script 应被剥离: {out}");
    assert!(!out.contains("onload"), "事件属性应被剥离");
    assert!(!out.contains("iframe"));
    assert!(out.contains("data:image/jpeg;base64,/9j/"), "图片应内联: {out}");
    assert!(out.contains("missing.png"), "未命中的引用保持原样");
}

#[test]
fn addresses_on_the_net_stay() {
    let mut images = ReaderImages::new();
    images.offer("/a.png", "png", vec![1]);
    let html = r#"<img src="https://x/a.png"/><img src="data:x"/><image xlink:href="a.png"/>"#;
    let out = sanitize_and_inline(html, "/", &images);
    assert_eq!(
        out,
        r#"<img src="https://x/a.png"/><img src="data:x"/><image xlink:href="data:image/png;base64,AQ=="/>"#
    );
    assert_eq!(sanitize_and_inline("<p>正文</p>", "/", &images), "<p>正文</p>");
}

#[test]
fn pictures_keep_to_their_budget() {
    let mut images = ReaderImages::new();
    images.offer("big.png", "png", vec![0; MAX_IMAGE_BYTES + 1]);
    images.offer("a.tiff", "tiff", vec![0]);
    assert!(images.images.is_empty());
    for i in 0..7 {
        images.offer(&format!("{i}.svg"), "svg", vec![0; MAX_IMAGE_BYTES]);
    }
    assert_eq!(images.images.len(), TOTAL_INLINE_BUDGET / MAX_IMAGE_BYTES);
    assert_eq!(images.budget, TOTAL_INLINE_BUDGET - 6 * MAX_IMAGE_BYTES);
    assert_eq!(images.images[0].mime, "image/svg+xml");
    assert!(images.find("0.svg").is_some());
    assert!(images.find("6.svg").is_none());
}

#[test]
fn a_book_is_assembled_from_its_pages() {
    let pages = vec![
        Page { href: "OEBPS/a.html".into(), content: "<title>第一章</title>".into() },
        Page { href: "b.html".into(), content: "<p>x</p>".into() },
    ];
    let c = assemble(&Some(" 书名 ".to_string()), &pages, &ReaderImages::new()).unwrap();
    assert_eq!(c.title, "书名");
    assert_eq!(c.chapters.len(), 2);
    assert_eq!(c.chapters[0].title, "第一章");
    assert_eq!(c.chapters[1].title, "第 2 节");
    assert_eq!(c.chapters[1].html, "<p>x</p>");
    let c = assemble(&None, &pages, &ReaderImages::new()).unwrap();
    assert_eq!(c.title, "未命名");
    assert_eq!(assemble(&None, &vec![], &ReaderImages::new()).unwrap_err(), "EPUB 中没有可读章节");
    assert_eq!(base_dir_of("OEBPS/text/a.html"), "/OEBPS/text/");
    assert_eq!(base_dir_of("a.html"), "/");
}

#[test]
fn test_render_shelf() {
    let mut c = Catalog::new();
    let id1 = c
        .insert_book("钟表馆事件", "绫辻行人", "本格推理,推理小说", "/orig/a.epub", r#"["clasp123"]"#)
        .unwrap();
    c.update_book_enrichment(
        id1,
        Some("简介"),
        Some("/tmp/lib/covers/clasp123.jpg"),
        Some("馆系列"),
        Some(3),
        Some("a.epub"),
        None,
    );
    c.set_book_status(id1, "已读", "2024-01-01 00:00:00");
    c.save_review(id1, "诡计精妙，结局震撼");

    c.insert_book("占星术杀人魔法", "岛田庄司", "推理小说", "/orig/b.epub", "[]").unwrap();

    let present = vec!["clasp123.jpg".to_string()];
    assert!(SHELF_FILE.ends_with("shelf.html"));

    let html = shelf_page("<h1>__COUNT__</h1>__CARDS__", &c.get_shelf_books(), &present);
    assert!(html.contains("钟表馆事件"));
    assert!(html.contains("占星术杀人魔法"));
    assert!(html.contains("badge read"));
    assert!(html.contains("badge wish"));
    assert!(html.contains("我的短评"));
    assert!(html.contains("诡计精妙，结局震撼"));
    assert!(html.contains("https://claspclub.com/books/clasp123"));
    assert!(html.contains(r#"src="covers/clasp123.jpg""#));
    assert!(html.contains("馆系列 #3"));
    assert!(html.contains("2"));
}

#[test]
fn a_card_is_rendered_exactly() {
    let mut c = Catalog::new();
    c.insert_book("A<B", "C&D", "", "", "[]").unwrap();
    let rows = c.get_shelf_books();
    assert_eq!(
        render_card(&rows[0], 2, &vec![]),
        "<div class=\"card\" style=\"animation-delay:90ms\"><span class=\"badge wish\">想读</span>\
         <div class=\"cover placeholder\"><span>A&lt;B</span></div>\
         <div class=\"meta\"><div class=\"t\">A&lt;B</div><div class=\"a\">C&amp;D</div></div></div>"
    );
    assert_eq!(escape("\"<a>&\""), "&quot;&lt;a&gt;&amp;&quot;");
    assert_eq!(cover_rel(&Some("/x/p.jpg".to_string()), &vec!["p.jpg".to_string()]).as_deref(), Some("covers/p.jpg"));
    assert_eq!(cover_rel(&Some("/x/q.jpg".to_string()), &vec!["p.jpg".to_string()]), None);
    assert_eq!(cover_rel(&None, &vec![]), None);
}

#[test]
fn tags_that_join_are_taken_out_too() {
    let images = ReaderImages::new();
    let out = sanitize_and_inline("<p>a</p><scr<script></script>ipt>x</scr<iframe/>ipt>", "/", &images);
    assert_eq!(out, "<p>a</p>");
    let out = sanitize_and_inline("<b o<script></script>nz=1 onx=2 on<iframe/>y=3>z</b>", "/", &images);
    assert!(!out.contains("<script") && !out.contains("<iframe") && !out.contains(" on"));
}

#[test]
fn base64_is_filled_up_at_its_end_only() {
    for n in 0..9 {
        let t = base64_encode(&vec![0u8; n]);
        let fill = [0, 2, 1][n % 3];
        assert_eq!(t.len() % 4, 0);
        assert_eq!(t.chars().filter(|c| *c == '=').count(), fill);
        assert_eq!(t.len() - t.trim_end_matches('=').len(), fill);
    }
}
