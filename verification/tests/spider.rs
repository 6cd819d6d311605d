use mystery_novel_agent::ingestion::douban_source;
use mystery_novel_agent::spider::{
    detail_url, douban_book_url, douban_comments_url, extract_douban_id_from_cover,
    filter_comments, parse_clasp_reviews, parse_douban_book_meta, parse_douban_comments,
    parse_douban_description, reviews_url, search_url, suggestions_url, ClaspAuthor, ClaspBookItem,
    ClaspBookMeta, ClaspBookSuggestion, ClaspTag, Comment,
};
use mystery_novel_agent::utils::count_han;

#[test]
fn test_extract_douban_id() {
    let url = "https://clasp-book-images.oss-cn-hangzhou.aliyuncs.com/book-covers/douban-26771719.jpg";
    assert_eq!(extract_douban_id_from_cover(url), Some("26771719".to_string()));

    assert_eq!(extract_douban_id_from_cover("https://example.com/no-douban.jpg"), None);
}

#[test]
fn test_filter_comments_top5() {
    let mk = |n: usize, han: usize, useful: i32| Comment {
        rating: None,
        content: "好".repeat(han) + &format!("填充{n}"),
        usefulness: useful,
    };
    let raw: Vec<Comment> = (0..12).map(|i| mk(i, 20, i as i32)).collect();
    let filtered = filter_comments(raw);
    assert_eq!(filtered.len(), 5);
    assert_eq!(filtered[0].usefulness, 11);
    assert_eq!(filtered[4].usefulness, 7);

    let raw: Vec<Comment> = (0..12).map(|i| mk(i, if i < 2 { 20 } else { 3 }, 0)).collect();
    let filtered = filter_comments(raw);
    assert_eq!(filtered.len(), 5);
    assert!(count_han(&filtered[0].content) >= 20);
}

#[test]
fn test_douban_urls() {
    assert_eq!(douban_book_url("26771719"), "https://book.douban.com/subject/26771719/");
    assert_eq!(
        douban_comments_url("https://book.douban.com/subject/26771719/"),
        "https://book.douban.com/subject/26771719/comments/"
    );
}

#[test]
fn test_from_suggestion() {
    let s = ClaspBookSuggestion {
        title: "钟表馆事件".into(),
        author_name: "绫辻行人".into(),
        id: "cmq0a3te5000tbhl5sydiqlaa".into(),
        tags: vec!["本格推理".into(), "密室".into()],
        cover_url: Some(
            "https://clasp-book-images.oss-cn-hangzhou.aliyuncs.com/book-covers/douban-26771719.jpg"
                .into(),
        ),
        summary: None,
        douban_url: None,
    };

    let meta = ClaspBookMeta::from_suggestions(&vec![s]);
    assert_eq!(meta.title, "钟表馆事件");
    assert_eq!(meta.author, "绫辻行人");
    assert_eq!(meta.tags, vec!["本格推理", "密室"]);
    assert_eq!(
        meta.douban_urls.first().map(|s| s.as_str()),
        Some("https://book.douban.com/subject/26771719/")
    );
    assert_eq!(meta.clasp_ids, vec!["cmq0a3te5000tbhl5sydiqlaa"]);
}

#[test]
fn test_book_item_to_suggestion() {
    let item = ClaspBookItem {
        id: "cmq0a3te5000tbhl5sydiqlaa".into(),
        title: "钟表馆事件".into(),
        author: None,
        authors: vec![ClaspAuthor { name: "绫辻行人".into() }],
        cover_url: Some(
            "https://clasp-book-images.oss-cn-hangzhou.aliyuncs.com/book-covers/douban-26771719.jpg"
                .into(),
        ),
        summary_no_spoiler: Some("无剧透简介".into()),
        tags: vec![ClaspTag { name: "本格推理".into() }, ClaspTag { name: "密室".into() }],
    };

    let s = item.suggestion();
    assert_eq!(s.title, "钟表馆事件");
    assert_eq!(s.author_name, "绫辻行人");
    assert_eq!(s.tags, vec!["本格推理", "密室"]);
    assert_eq!(s.summary.as_deref(), Some("无剧透简介"));
    assert_eq!(s.douban_url.as_deref(), Some("https://book.douban.com/subject/26771719/"));

    let item2 = ClaspBookItem {
        authors: vec![],
        author: Some(ClaspAuthor { name: "东野圭吾".into() }),
        ..item
    };
    assert_eq!(item2.suggestion().author_name, "东野圭吾");
}

#[test]
fn test_parse_douban_description() {
  let html = r#"<html><body><div id="intro"><div class="intro"><p>第一段简介。</p><p>第二段介绍。</p></div></div></body></html>"#;
  assert_eq!(
    parse_douban_description(html).as_deref(),
    Some("第一段简介。\n第二段介绍。")
  );

  let fallback = r#"<html><head><meta property="og:description" content="兜底简介内容"/></head><body></body></html>"#;
  assert_eq!(
    parse_douban_description(fallback).as_deref(),
    Some("兜底简介内容")
  );

  assert!(parse_douban_description("<html><body></body></html>").is_none());
}

#[test]
fn test_parse_douban_description_long() {
  let html = r#"<html><body>
    <div class="related_info">
      <h2><span>内容简介</span></h2>
      <div class="indent" id="link-report">
        <span class="short">
          <div class="intro">
            <p>第一条营销文案。</p>
            <p>第二条营销文案被截短...</p>
            <p><a href="javascript:void(0)" class="j a_show_full">(展开全部)</a></p>
          </div>
        </span>
        <span class="all hidden">
          <div class="intro">
            <p>第一条营销文案。</p>
            <p>第二条营销文案的完整内容。</p>
            <p>内容简介正文段落。</p>
          </div>
        </span>
      </div>
      <h2><span>作者简介</span></h2>
      <div class="indent">
        <span class="short"><div class="intro"><p>作者简介截短版。</p></div></span>
        <span class="all hidden"><div class="intro"><p>作者简介完整版，绝不能被当成内容简介。</p></div></span>
      </div>
    </div>
  </body></html>"#;
  assert_eq!(
    parse_douban_description(html).as_deref(),
    Some("第一条营销文案。\n第二条营销文案的完整内容。\n内容简介正文段落。")
  );
}

#[test]
fn test_parse_douban_description_short() {
  let html = r#"<html><body>
    <div class="related_info">
      <h2><span>内容简介</span></h2>
      <div class="indent" id="link-report">
        <div class="intro"><p>钟表馆的完整内容简介，篇幅不长未被截短。</p></div>
      </div>
      <h2><span>作者简介</span></h2>
      <div class="indent">
        <span class="short"><div class="intro"><p>作者简介截短版。</p></div></span>
        <span class="all hidden"><div class="intro"><p>作者简介完整版，绝不能被当成内容简介。</p></div></span>
      </div>
    </div>
  </body></html>"#;
  assert_eq!(
    parse_douban_description(html).as_deref(),
    Some("钟表馆的完整内容简介，篇幅不长未被截短。")
  );
}

const COMMENTS: &str = r#"<html><body><ul>
  <li class="comment-item"><span class="user-stars allstar40"></span><span class="vote-count">12 人</span>
    <p><span class="short"> 很好看   的书 </span></p></li>
  <li class="comment-item"><span class="short">  </span></li>
  <li class="comment-item"><p class="comment-content">一般</p></li>
</ul></body></html>"#;

#[test]
fn comments_without_a_text_are_left_out() {
    let all = parse_douban_comments(COMMENTS);
    assert_eq!(all.len(), 2);
    assert_eq!(all[0].rating, Some(4));
    assert_eq!(all[0].content, "很好看 的书");
    assert_eq!(all[0].usefulness, 12);
    assert_eq!(all[1].rating, None);
    assert_eq!(all[1].content, "一般");
    assert_eq!(all[1].usefulness, 0);
}

const PAGE: &str = r#"<html><head><title>白夜行 (豆瓣)</title>
  <meta property="og:image" content="https://img.example.com/s1.jpg"/></head><body>
  <div id="info"><span>出版社: X</span><span>作者: <a>东野圭吾</a> / <a>刘姿君</a></span></div>
  <div id="link-report"><div class="intro"><p>简介。</p></div></div></body></html>"#;

#[test]
fn a_page_names_its_book() {
    let m = parse_douban_book_meta(PAGE);
    assert_eq!(m.title.as_deref(), Some("白夜行"));
    assert_eq!(m.author.as_deref(), Some("东野圭吾、刘姿君"));
    assert_eq!(m.cover_url.as_deref(), Some("https://img.example.com/s1.jpg"));
    assert_eq!(m.summary.as_deref(), Some("简介。"));
    let none = parse_douban_book_meta("<html><body></body></html>");
    assert!(none.title.is_none() && none.author.is_none() && none.cover_url.is_none());
}

#[test]
fn a_page_is_a_source() {
    let url = "https://book.douban.com/subject/1/";
    let s = douban_source(url, Some(PAGE), Some(COMMENTS));
    assert_eq!(s.ref_key, url);
    assert_eq!(s.title.as_deref(), Some("白夜行"));
    assert_eq!(s.comments.len(), 2);
    let bare = douban_source(url, None, None);
    assert_eq!(bare.ref_key, url);
    assert!(bare.title.is_none() && bare.comments.is_empty());
}

#[test]
fn reviews_stand_under_several_names() {
    let one = parse_clasp_reviews(r#"{"items":[{"content":" 好 ","rating":8,"likeCount":3},{"content":" "}]}"#);
    assert_eq!(one.len(), 1);
    assert_eq!(one[0].content, "好");
    assert_eq!(one[0].rating, Some(4));
    assert_eq!(one[0].usefulness, 3);
    let two = parse_clasp_reviews(r#"{"data":[{"body":"甲","stars":5},{"text":"乙","likes":-1}]}"#);
    assert_eq!(two.len(), 2);
    assert_eq!(two[0].rating, Some(5));
    assert_eq!(two[1].usefulness, 0);
    assert_eq!(parse_clasp_reviews(r#"[{"review":"丙"}]"#).len(), 1);
    assert!(parse_clasp_reviews("不是 JSON").is_empty());
}

#[test]
fn keywords_are_coded_in_addresses() {
    assert_eq!(
        suggestions_url("白 A1"),
        "https://claspclub.com/api/v1/search/suggestions?keyword=%E7%99%BD%20A1"
    );
    assert_eq!(
        search_url("白", 2, 20),
        "https://claspclub.com/api/v1/books?keyword=%E7%99%BD&sort=doubanRating&page=2&pageSize=20"
    );
    assert_eq!(detail_url("c1"), "https://claspclub.com/api/v1/books/c1");
    assert_eq!(
        reviews_url("c1"),
        "https://claspclub.com/api/v1/books/c1/comments?area=all&page=1&pageSize=12&sort=popular"
    );
}
