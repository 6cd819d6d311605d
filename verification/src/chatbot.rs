//! The reading assistant: what it knows, what it can look up, and how a talk with it goes.
use vstd::prelude::*;
use vstd::string::*;

use crate::agent::{ChatOutcome, LlmError, Message, ToolCall};
use crate::config::{current_at, AppConfig};
use crate::db::{
    book_of, coalesce, opt_view, BookView, Catalog, CatalogView, CommentRec, CommentRow,
    CommentView,
};
use crate::importing::CANCELLED_MSG;
use crate::ingestion::ClaspSearchPage;
use crate::json::{
    array_of_json, bool_of_json, int_of_json, json_of_strings, json_of_text, read_array, read_flag,
    read_int, read_text, text_of_json, write_strings, write_text,
};
use crate::queries::{
    chatbot_row_is, comment_is, comments_of, detail_is, fetched_comments_of, found, limited,
    status_of, BookDetailRow, ChatbotBookRow,
};
use crate::settings::{check_status, is_status};
use crate::spider::ClaspBookSuggestion;
use crate::text::{
    blank, chars_of, contains, dec, dec_i64, dec_int, dec_u64, has_part, is_blank, join, joined,
    lowercase, opt_str, parse_i64, parse_int, parts_of_a_join, parts_stand_in_the_whole, same,
    string_of_range, strs, strs_push, to_lower, trim, trimmed,
};
use crate::seqs::{filter_from, filter_none, filter_step};

verus! {

/// How many rounds of tools a talk has.
pub const CHATBOT_MAX_ROUNDS: usize = 5;

/// How many messages of the talk the model is shown.
pub const CHATBOT_HISTORY_MAX: usize = 16;

/// How many books the model is told of.
pub const CHATBOT_KNOWLEDGE_BOOKS: i64 = 40;

/// A message of a talk.
#[derive(Debug)]
pub struct ChatMessageDto {
    pub role: String,
    pub content: String,
}

/// A call of a tool, as it is shown.
#[derive(Debug)]
pub struct ChatStepDto {
    pub tool: String,
    /// The arguments, as JSON.
    pub args: String,
    /// The start of the result.
    pub result: String,
}

/// A reply, as it is shown.
#[derive(Debug)]
pub struct ChatReplyDto {
    pub content: String,
    pub model: String,
    /// The calls of tools that led to it.
    pub steps: Vec<ChatStepDto>,
}

// ---- texts ----

/// At most `max` characters, and a mark where there were more.
pub open spec fn shortened(s: Seq<char>, max: nat) -> Seq<char> {
    let t = trim(s);
    if t.len() <= max {
        t
    } else {
        t.take(max as int) + "…"@
    }
}

/// At most `max` characters, and a mark where there were more.
pub fn truncate_for_prompt(s: &str, max: usize) -> (r: String)
    ensures
        r@ == shortened(s@, max as nat),
{
    let t = trimmed(s);
    let v = chars_of(&t);
    if v.len() <= max {
        t
    } else {
        assert(v@.take(max as int) =~= v@.subrange(0, max as int));
        string_of_range(&v, 0, max).concat("…")
    }
}

/// A shortened text has at most one character more than it may.
pub proof fn shortened_is_short(s: Seq<char>, max: nat)
    ensures
        shortened(s, max).len() <= max + 1,
{
    reveal_strlit("…");
}

fn or_nothing(o: &Option<String>) -> (r: String)
    ensures
        r@ == coalesce(opt_str(*o), ""@),
{
    match o {
        Some(s) => s.as_str().to_owned(),
        None => "".to_owned(),
    }
}

// ---- what the model is told ----

/// A line for a text that is not blank.
pub open spec fn knowledge_line(head: Seq<char>, text: Option<Seq<char>>, max: nat) -> Seq<char> {
    match text {
        Some(t) => if is_blank(t) {
            Seq::empty()
        } else {
            head + shortened(t, max) + "\n"@
        },
        None => Seq::empty(),
    }
}

fn line_of(head: &str, text: &Option<String>, max: usize) -> (r: String)
    ensures
        r@ == knowledge_line(head@, opt_str(*text), max as nat),
{
    match text {
        Some(t) => if blank(t) {
            String::new()
        } else {
            head.to_owned().concat(&truncate_for_prompt(t, max)).concat("\n")
        },
        None => String::new(),
    }
}

/// The comment on a book that the model is told.
pub open spec fn first_comment(comments: Seq<CommentView>, book: int) -> Seq<char> {
    let top = limited(fetched_comments_of(comments, book), 1);
    if top.len() > 0 {
        "  短评："@ + shortened(top[0].content, 60) + "\n"@
    } else {
        Seq::empty()
    }
}

/// What the model is told of a book.
pub open spec fn book_knowledge(b: BookView, comments: Seq<CommentView>) -> Seq<char> {
    let author = coalesce(b.author, ""@);
    let tags = coalesce(b.tags, ""@);
    "- 《"@ + b.title + "》｜作者："@ + (if author.len() == 0 {
        "佚名"@
    } else {
        author
    }) + "｜状态："@ + status_of(b) + (match b.finished_date {
        Some(d) => "｜读完于 "@ + d,
        None => Seq::empty(),
    }) + "\n"@ + (if is_blank(tags) {
        Seq::empty()
    } else {
        "  标签："@ + tags + "\n"@
    }) + knowledge_line("  简介："@, b.description, 80) + first_comment(comments, b.id)
        + knowledge_line("  我的书评："@, b.my_review, 60)
}

/// What the model is told of the books.
pub open spec fn knowledge(books: Seq<BookView>, comments: Seq<CommentView>) -> Seq<char>
    decreases books.len(),
{
    if books.len() == 0 {
        Seq::empty()
    } else {
        knowledge(books.drop_last(), comments) + book_knowledge(books.last(), comments)
    }
}

/// What the model is told of its task, behind the number of books.
pub const CHATBOT_TASK: &'static str = " 本书）。你可以回答关于这些书的问题、推荐阅读、比较作品、根据状态与短评总结用户的阅读品味。回答使用简体中文，语气自然，避免剧透关键结局。

注意：书库知识中的「短评」来自网络公开短评（豆瓣 / claspclub 的网友撰写），它们代表网络上读者的看法，并不是用户本人的想法；「我的书评」才是用户本人的评论。

你可以使用以下本地工具查询书库（需要某本书的完整简介、个人书评、系列信息，或按状态/作者/标签检索时，请主动调用工具，不要凭空猜测）：
- search_books：按关键词搜索书籍（匹配书名/作者）
- filter_books：按阅读状态/作者/标签筛选书籍
- get_book_detail：查看某本书的完整详情（book_id 来自搜索/筛选结果）
- get_book_comments：查看某本书的网络短评列表
- search_claspclub：检索在线书目库（结果不是本地藏书；查询本地藏书请使用 search_books）

你还可以用以下工具提出修改（update_book_meta：修改元数据；set_book_status：切换阅读状态；merge_books：合并书籍）。这些工具不会直接生效，调用后请告知用户在弹出窗口中确认，不要声称已经完成。

== 书库概览（含每本书的简短简介与短评节选）==
";

/// The title of the library in use.
pub open spec fn library_title(cfg: AppConfig) -> Seq<char> {
    match current_at(cfg.libraries@, opt_str(cfg.current_library)) {
        Some(i) => cfg.libraries@[i].title@,
        None => "未命名书库"@,
    }
}

/// What the model is told before a talk.
pub open spec fn chatbot_system(c: CatalogView, cfg: AppConfig, library: Option<Seq<char>>) -> Seq<char> {
    let books = limited(
        found(c.books, library, None, None, None, None),
        CHATBOT_KNOWLEDGE_BOOKS as int,
    );
    "你是本地推理小说书架应用的阅读助手「书虫」。用户正在使用「"@ + library_title(cfg) + "」书库（共 "@ + dec(books.len())
        + CHATBOT_TASK@ + knowledge(books, c.comments)
}

impl Catalog {
    fn tell_book(&self, b: &ChatbotBookRow, Ghost(v): Ghost<BookView>) -> (r: String)
        requires
            chatbot_row_is(*b, v),
        ensures
            r@ == book_knowledge(v, self@.comments),
    {
        let author = if b.author.as_str().is_empty() {
            "佚名"
        } else {
            b.author.as_str()
        };
        let read = match &b.finished_date {
            Some(d) => "｜读完于 ".to_owned().concat(d),
            None => String::new(),
        };
        let tags = if blank(&b.tags) {
            String::new()
        } else {
            "  标签：".to_owned().concat(&b.tags).concat("\n")
        };
        let top = self.get_top_comments(b.id, 1);
        let ghost want = limited(fetched_comments_of(self@.comments, b.id as int), 1);
        let ghost texts = want.map_values(|c: CommentView| c.content);
        assert(strs(top@).len() == top@.len());
        assert(texts.len() == want.len());
        let said = if top.len() > 0 {
            assert(strs(top@)[0] == top@[0]@);
            assert(texts[0] == want[0].content);
            "  短评：".to_owned().concat(&truncate_for_prompt(&top[0], 60)).concat("\n")
        } else {
            String::new()
        };
        "- 《".to_owned().concat(&b.title).concat("》｜作者：").concat(author).concat("｜状态：").concat(
            &b.status,
        ).concat(&read).concat("\n").concat(&tags).concat(
            &line_of("  简介：", &b.description, 80),
        ).concat(&said).concat(&line_of("  我的书评：", &b.my_review, 60))
    }

    /// What the model is told before a talk.
    pub fn build_chatbot_system(&self, cfg: &AppConfig, library: Option<&str>) -> (r: String)
        ensures
            r@ == chatbot_system(self@, *cfg, opt_view(library)),
    {
        let title = match cfg.current_library() {
            Some(l) => l.title.as_str().to_owned(),
            None => "未命名书库".to_owned(),
        };
        let books = self.search_chatbot_books(
            library,
            None,
            None,
            None,
            None,
            CHATBOT_KNOWLEDGE_BOOKS,
        );
        let ghost none: Option<&str> = None;
        let ghost all = limited(
            found(self@.books, opt_view(library), None, None, None, None),
            CHATBOT_KNOWLEDGE_BOOKS as int,
        );
        assert(opt_view(none) == None::<Seq<char>>);
        let mut told = String::new();
        let mut i: usize = 0;
        assert(all.take(0) =~= Seq::<BookView>::empty());
        while i < books.len()
            invariant
                i <= books@.len(),
                books@.len() == all.len(),
                forall|k: int| 0 <= k < books@.len() ==> chatbot_row_is(#[trigger] books@[k], all[k]),
                told@ == knowledge(all.take(i as int), self@.comments),
            decreases books@.len() - i,
        {
            assert(all.take(i + 1).drop_last() =~= all.take(i as int));
            assert(all.take(i + 1).last() == all[i as int]);
            told = told.concat(&self.tell_book(&books[i], Ghost(all[i as int])));
            i += 1;
        }
        assert(all.take(books@.len() as int) =~= all);
        "你是本地推理小说书架应用的阅读助手「书虫」。用户正在使用「".to_owned().concat(&title).concat("」书库（共 ").concat(
            &dec_u64(books.len() as u64),
        ).concat(CHATBOT_TASK).concat(&told)
    }
}

// ---- tools ----

/// The tools of the assistant, as JSON.
pub const CHATBOT_TOOLS: &'static str = r#"[
  {
    "type": "function",
    "function": {
      "name": "search_books",
      "description": "在当前书库中按关键词搜索书籍（匹配书名或作者），返回简要列表（id/书名/作者/状态/标签）",
      "parameters": {
        "type": "object",
        "properties": {
          "keyword": { "type": "string", "description": "书名或作者关键词" },
          "limit": { "type": "integer", "description": "最多返回条数，默认 10，最大 50" }
        },
        "required": ["keyword"]
      }
    }
  },
  {
    "type": "function",
    "function": {
      "name": "filter_books",
      "description": "按阅读状态（想读/在读/已读）、作者、标签筛选当前书库的书籍",
      "parameters": {
        "type": "object",
        "properties": {
          "status": { "type": "string", "description": "阅读状态：想读 / 在读 / 已读" },
          "author": { "type": "string", "description": "作者名（包含匹配）" },
          "tag": { "type": "string", "description": "标签（包含匹配）" },
          "limit": { "type": "integer", "description": "最多返回条数，默认 10，最大 50" }
        }
      }
    }
  },
  {
    "type": "function",
    "function": {
      "name": "get_book_detail",
      "description": "查看某本书的完整详情：简介全文、个人书评、系列、标签、阅读状态",
      "parameters": {
        "type": "object",
        "properties": {
          "book_id": { "type": "integer", "description": "书籍 ID（来自 search_books / filter_books 的结果）" }
        },
        "required": ["book_id"]
      }
    }
  },
  {
    "type": "function",
    "function": {
      "name": "get_book_comments",
      "description": "查看某本书的网络短评列表（豆瓣 / claspclub 网友短评）",
      "parameters": {
        "type": "object",
        "properties": {
          "book_id": { "type": "integer", "description": "书籍 ID" },
          "limit": { "type": "integer", "description": "最多返回条数，默认 5，最大 10" }
        },
        "required": ["book_id"]
      }
    }
  },
  {
    "type": "function",
    "function": {
      "name": "search_claspclub",
      "description": "检索在线书目库（非本地书架），返回书名/作者/标签/无剧透简介；查询本地藏书请使用 search_books",
      "parameters": {
        "type": "object",
        "properties": {
          "keyword": { "type": "string", "description": "书名或作者关键词" },
          "page": { "type": "integer", "description": "页码，默认 1" }
        },
        "required": ["keyword"]
      }
    }
  },
  {
    "type": "function",
    "function": {
      "name": "update_book_meta",
      "description": "提出修改某本书的元数据，用户确认后才生效",
      "parameters": {
        "type": "object",
        "properties": {
          "book_id": { "type": "integer", "description": "书籍 ID" },
          "title": { "type": "string", "description": "书名" },
          "author": { "type": "string", "description": "作者" },
          "tags": { "type": "string", "description": "标签，逗号分隔" },
          "description": { "type": "string", "description": "简介" },
          "series_name": { "type": "string", "description": "系列名" },
          "series_order": { "type": "integer", "description": "卷号" }
        },
        "required": ["book_id"]
      }
    }
  },
  {
    "type": "function",
    "function": {
      "name": "set_book_status",
      "description": "提出切换某本书的阅读状态，用户确认后才生效；已读时可附短评或请求引导式短评（二者互斥）",
      "parameters": {
        "type": "object",
        "properties": {
          "book_id": { "type": "integer", "description": "书籍 ID" },
          "status": { "type": "string", "description": "阅读状态：想读 / 在读 / 已读" },
          "review": { "type": "string", "description": "短评，仅已读有效" },
          "generate_review": { "type": "boolean", "description": "打开引导式短评窗口，仅已读有效" }
        },
        "required": ["book_id", "status"]
      }
    }
  },
  {
    "type": "function",
    "function": {
      "name": "merge_books",
      "description": "提出按顺序合并至少两本书，用户确认后才生效",
      "parameters": {
        "type": "object",
        "properties": {
          "book_ids": { "type": "array", "items": { "type": "integer" }, "description": "书籍 ID，按合并顺序" }
        },
        "required": ["book_ids"]
      }
    }
  }
]"#;

/// The tools of the assistant, as JSON.
pub fn chatbot_tools() -> (r: String)
    ensures
        r@ == CHATBOT_TOOLS@,
{
    CHATBOT_TOOLS.to_owned()
}

/// The answer of a tool that failed.
pub open spec fn error_json(msg: Seq<char>) -> Seq<char> {
    "{\"error\":"@ + json_of_text(msg) + "}"@
}

fn json_error(msg: &str) -> (r: String)
    ensures
        r@ == error_json(msg@),
{
    "{\"error\":".to_owned().concat(&write_text(msg)).concat("}")
}

/// A text or `null`.
pub open spec fn json_or_null(o: Option<Seq<char>>) -> Seq<char> {
    match o {
        Some(s) => json_of_text(s),
        None => "null"@,
    }
}

fn json_opt(o: &Option<String>) -> (r: String)
    ensures
        r@ == json_or_null(opt_str(*o)),
{
    match o {
        Some(s) => write_text(s),
        None => "null".to_owned(),
    }
}

/// An argument that is a text, where it is not blank.
pub open spec fn text_argument(args: Seq<char>, key: Seq<char>) -> Option<Seq<char>> {
    match text_of_json(args, key) {
        Some(s) => if is_blank(s) {
            None
        } else {
            Some(trim(s))
        },
        None => None,
    }
}

fn text_arg(args: &str, key: &str) -> (r: Option<String>)
    ensures
        opt_str(r) == text_argument(args@, key@),
{
    match read_text(args, key) {
        Some(s) => if blank(&s) {
            None
        } else {
            Some(trimmed(&s))
        },
        None => None,
    }
}

/// The identifiers among the elements of a list, each as JSON.
pub open spec fn ids_in(v: Seq<Seq<char>>) -> Seq<i64>
    decreases v.len(),
{
    if v.len() == 0 {
        Seq::empty()
    } else {
        let before = ids_in(v.drop_last());
        match parse_int(v.last()) {
            Some(n) => if i64::MIN <= n <= i64::MAX {
                before.push(n as i64)
            } else {
                before
            },
            None => before,
        }
    }
}

fn ids_of(v: &Vec<String>) -> (r: Vec<i64>)
    ensures
        r@ == ids_in(strs(v@)),
{
    let mut r: Vec<i64> = Vec::new();
    let mut i: usize = 0;
    assert(strs(v@).take(0) =~= Seq::<Seq<char>>::empty());
    while i < v.len()
        invariant
            i <= v@.len(),
            r@ == ids_in(strs(v@).take(i as int)),
        decreases v@.len() - i,
    {
        proof {
            assert(strs(v@).take(i + 1).drop_last() =~= strs(v@).take(i as int));
            assert(strs(v@).take(i + 1).last() == v@[i as int]@);
        }
        match parse_i64(&v[i]) {
            Some(n) => {
                r.push(n);
            },
            None => {},
        }
        i += 1;
    }
    assert(strs(v@).take(v@.len() as int) =~= strs(v@));
    r
}

/// The arguments of a call of a tool; texts are not blank.
#[derive(Debug)]
pub struct ToolArgs {
    pub keyword: Option<String>,
    pub status: Option<String>,
    pub author: Option<String>,
    pub tag: Option<String>,
    pub review: Option<String>,
    pub generate_review: bool,
    pub limit: Option<i64>,
    pub page: Option<i64>,
    pub book_id: Option<i64>,
    pub book_ids: Vec<i64>,
}

/// The arguments of a call of a tool, by their characters.
#[verifier::ext_equal]
pub struct ArgsView {
    pub keyword: Option<Seq<char>>,
    pub status: Option<Seq<char>>,
    pub author: Option<Seq<char>>,
    pub tag: Option<Seq<char>>,
    pub review: Option<Seq<char>>,
    pub generate_review: bool,
    pub limit: Option<i64>,
    pub page: Option<i64>,
    pub book_id: Option<i64>,
    pub book_ids: Seq<i64>,
}

impl View for ToolArgs {
    type V = ArgsView;

    open spec fn view(&self) -> ArgsView {
        ArgsView {
            keyword: opt_str(self.keyword),
            status: opt_str(self.status),
            author: opt_str(self.author),
            tag: opt_str(self.tag),
            review: opt_str(self.review),
            generate_review: self.generate_review,
            limit: self.limit,
            page: self.page,
            book_id: self.book_id,
            book_ids: self.book_ids@,
        }
    }
}

/// The arguments that a JSON text holds.
pub open spec fn args_of(text: Seq<char>) -> ArgsView {
    ArgsView {
        keyword: text_argument(text, "keyword"@),
        status: text_argument(text, "status"@),
        author: text_argument(text, "author"@),
        tag: text_argument(text, "tag"@),
        review: text_argument(text, "review"@),
        generate_review: bool_of_json(text, "generate_review"@) == Some(true),
        limit: int_of_json(text, "limit"@),
        page: int_of_json(text, "page"@),
        book_id: int_of_json(text, "book_id"@),
        book_ids: match array_of_json(text, "book_ids"@) {
            Some(Some(v)) => ids_in(v),
            _ => Seq::empty(),
        },
    }
}

/// The arguments that a JSON text holds.
pub fn tool_args(text: &str) -> (r: ToolArgs)
    ensures
        r@ == args_of(text@),
{
    let book_ids = match read_array(text, "book_ids") {
        Some(Some(v)) => ids_of(&v),
        _ => Vec::new(),
    };
    let generate_review = match read_flag(text, "generate_review") {
        Some(b) => b,
        None => false,
    };
    ToolArgs {
        keyword: text_arg(text, "keyword"),
        status: text_arg(text, "status"),
        author: text_arg(text, "author"),
        tag: text_arg(text, "tag"),
        review: text_arg(text, "review"),
        generate_review,
        limit: read_int(text, "limit"),
        page: read_int(text, "page"),
        book_id: read_int(text, "book_id"),
        book_ids,
    }
}

/// A number from 1 to `max`; `other` where none is given.
pub open spec fn limit_argument(limit: Option<i64>, other: i64, max: i64) -> i64 {
    let n = match limit {
        Some(n) => n,
        None => other,
    };
    if n < 1 {
        1
    } else if n > max {
        max
    } else {
        n
    }
}

fn limit_arg(limit: Option<i64>, other: i64, max: i64) -> (r: i64)
    ensures
        r == limit_argument(limit, other, max),
{
    let n: i64 = match limit {
        Some(n) => n,
        None => other,
    };
    if n < 1 {
        1
    } else if n > max {
        max
    } else {
        n
    }
}

/// A book in the answer of a tool.
pub open spec fn book_json(b: BookView) -> Seq<char> {
    "{\"author\":"@ + json_of_text(coalesce(b.author, ""@)) + ",\"book_id\":"@ + dec_int(b.id)
        + ",\"status\":"@ + json_of_text(status_of(b)) + ",\"tags\":"@ + json_of_text(
        coalesce(b.tags, ""@),
    ) + ",\"title\":"@ + json_of_text(b.title) + "}"@
}

/// The answer with the books that were found.
pub open spec fn books_json(books: Seq<BookView>) -> Seq<char> {
    "{\"books\":["@ + join(books.map_values(|b: BookView| book_json(b)), ","@) + "],\"count\":"@
        + dec(books.len()) + "}"@
}

fn json_book(b: &ChatbotBookRow, Ghost(v): Ghost<BookView>) -> (r: String)
    requires
        chatbot_row_is(*b, v),
    ensures
        r@ == book_json(v),
{
    "{\"author\":".to_owned().concat(&write_text(&b.author)).concat(",\"book_id\":").concat(
        &dec_i64(b.id),
    ).concat(",\"status\":").concat(&write_text(&b.status)).concat(",\"tags\":").concat(
        &write_text(&b.tags),
    ).concat(",\"title\":").concat(&write_text(&b.title)).concat("}")
}

/// The series of a book with its volume.
pub open spec fn series_label(name: Option<Seq<char>>, order: Option<i64>) -> Option<Seq<char>> {
    match name {
        Some(n) => Some(
            match order {
                Some(o) => n + " #"@ + dec_int(o as int),
                None => n,
            },
        ),
        None => None,
    }
}

/// The answer with the details of a book.
pub open spec fn detail_json(b: BookView) -> Seq<char> {
    "{\"author\":"@ + json_of_text(coalesce(b.author, ""@)) + ",\"book_id\":"@ + dec_int(b.id)
        + ",\"description\":"@ + json_of_text(shortened(coalesce(b.description, ""@), 800))
        + ",\"finished_date\":"@ + json_or_null(b.finished_date) + ",\"my_review\":"@
        + json_of_text(shortened(coalesce(b.my_review, ""@), 400)) + ",\"series\":"@
        + json_or_null(series_label(b.series_name, b.series_order)) + ",\"status\":"@
        + json_of_text(status_of(b)) + ",\"tags\":"@ + json_of_text(coalesce(b.tags, ""@))
        + ",\"title\":"@ + json_of_text(b.title) + "}"@
}

fn json_detail(d: &BookDetailRow, Ghost(v): Ghost<BookView>) -> (r: String)
    requires
        detail_is(*d, v),
    ensures
        r@ == detail_json(v),
{
    let series = match &d.series_name {
        Some(n) => match d.series_order {
            Some(o) => Some(n.as_str().to_owned().concat(" #").concat(&dec_i64(o))),
            None => Some(n.as_str().to_owned()),
        },
        None => None,
    };
    "{\"author\":".to_owned().concat(&write_text(&d.author)).concat(",\"book_id\":").concat(
        &dec_i64(d.id),
    ).concat(",\"description\":").concat(
        &write_text(&truncate_for_prompt(&or_nothing(&d.description), 800)),
    ).concat(",\"finished_date\":").concat(&json_opt(&d.finished_date)).concat(
        ",\"my_review\":",
    ).concat(&write_text(&truncate_for_prompt(&or_nothing(&d.my_review), 400))).concat(
        ",\"series\":",
    ).concat(&json_opt(&series)).concat(",\"status\":").concat(&write_text(&d.status)).concat(
        ",\"tags\":",
    ).concat(&write_text(&d.tags)).concat(",\"title\":").concat(&write_text(&d.title)).concat("}")
}

/// A comment in the answer of a tool.
pub open spec fn comment_json(c: CommentView) -> Seq<char> {
    "{\"content\":"@ + json_of_text(shortened(c.content, 150)) + ",\"rating\":"@ + (
    match c.rating {
        Some(n) => dec_int(n as int),
        None => "null"@,
    }) + ",\"source\":"@ + json_of_text(c.source) + "}"@
}

/// The first `n` of the comments that the reader did not write.
pub open spec fn shown_comments(v: Seq<CommentView>, n: nat) -> Seq<CommentView> {
    let fetched = v.filter(|c: CommentView| c.is_mine != 1);
    if fetched.len() <= n {
        fetched
    } else {
        fetched.take(n as int)
    }
}

/// The answer with the comments on a book.
pub open spec fn comments_json(v: Seq<CommentView>) -> Seq<char> {
    "{\"comments\":["@ + join(v.map_values(|c: CommentView| comment_json(c)), ","@)
        + "],\"count\":"@ + dec(v.len()) + "}"@
}

fn json_comment(c: &CommentRow, Ghost(v): Ghost<CommentView>) -> (r: String)
    requires
        comment_is(*c, v),
    ensures
        r@ == comment_json(v),
{
    proof {
        let w = (CommentRec { book_id: 0, row: *c })@;
        assert(w.content == v.content && w.rating == v.rating && w.source == v.source);
    }
    let rating = match c.rating {
        Some(n) => dec_i64(n as i64),
        None => "null".to_owned(),
    };
    "{\"content\":".to_owned().concat(&write_text(&truncate_for_prompt(&c.content, 150))).concat(
        ",\"rating\":",
    ).concat(&rating).concat(",\"source\":").concat(&write_text(&c.source)).concat("}")
}

/// Where the books come from that an online search found.
pub const ONLINE: &'static str = "在线书目库（非本地书架）；查询本地藏书请改用 search_books";

/// A book that an online search found.
pub open spec fn online_book_json(b: ClaspBookSuggestion) -> Seq<char> {
    "{\"author\":"@ + json_of_text(b.author_name@) + ",\"summary\":"@ + json_of_text(
        shortened(coalesce(opt_str(b.summary), ""@), 150),
    ) + ",\"tags\":"@ + json_of_strings(strs(b.tags@)) + ",\"title\":"@ + json_of_text(b.title@)
        + "}"@
}

/// The answer with the books that an online search found.
pub open spec fn online_json(p: ClaspSearchPage) -> Seq<char> {
    "{\"books\":["@ + join(
        p.items@.map_values(|b: ClaspBookSuggestion| online_book_json(b)),
        ","@,
    ) + "],\"count\":"@ + dec(p.items@.len()) + ",\"fuzzy\":"@ + (if p.fuzzy {
        "true"@
    } else {
        "false"@
    }) + ",\"source\":"@ + json_of_text(ONLINE@) + ",\"total\":"@ + dec_int(p.total as int)
        + "}"@
}

/// The answer with the books that an online search found.
pub fn format_clasp_results(p: &ClaspSearchPage) -> (r: String)
    ensures
        r@ == online_json(*p),
{
    let ghost want = p.items@.map_values(|b: ClaspBookSuggestion| online_book_json(b));
    let mut items: Vec<String> = Vec::new();
    let mut i: usize = 0;
    assert(strs(items@) =~= want.take(0));
    while i < p.items.len()
        invariant
            i <= p.items@.len(),
            want == p.items@.map_values(|b: ClaspBookSuggestion| online_book_json(b)),
            strs(items@) == want.take(i as int),
        decreases p.items@.len() - i,
    {
        let b = &p.items[i];
        let s = "{\"author\":".to_owned().concat(&write_text(&b.author_name)).concat(
            ",\"summary\":",
        ).concat(&write_text(&truncate_for_prompt(&or_nothing(&b.summary), 150))).concat(
            ",\"tags\":",
        ).concat(&write_strings(&b.tags)).concat(",\"title\":").concat(&write_text(&b.title)).concat(
            "}",
        );
        proof {
            strs_push(items@, s);
        }
        items.push(s);
        i += 1;
        assert(strs(items@) =~= want.take(i as int));
    }
    assert(want.take(p.items@.len() as int) =~= want);
    let fuzzy = if p.fuzzy {
        "true"
    } else {
        "false"
    };
    "{\"books\":[".to_owned().concat(&joined(&items, ",")).concat("],\"count\":").concat(
        &dec_u64(p.items.len() as u64),
    ).concat(",\"fuzzy\":").concat(fuzzy).concat(",\"source\":").concat(&write_text(ONLINE)).concat(
        ",\"total\":",
    ).concat(&dec_i64(p.total)).concat("}")
}

/// The search that a call asks for: what for, and which page.
pub open spec fn search_asked(name: Seq<char>, a: ArgsView) -> Option<(Seq<char>, i64)> {
    if name == "search_claspclub"@ && a.keyword is Some {
        Some(
            (
                a.keyword->0,
                match a.page {
                    Some(n) => if n > 1 {
                        n
                    } else {
                        1
                    },
                    None => 1,
                },
            ),
        )
    } else {
        None
    }
}

/// The online search that a call of a tool asks for: what for, and which page.
pub fn online_search(name: &str, a: &ToolArgs) -> (r: Option<(String, i64)>)
    ensures
        match r {
            Some(s) => search_asked(name@, a@) == Some((s.0@, s.1)),
            None => search_asked(name@, a@) is None,
        },
{
    if !same(name, "search_claspclub") {
        return None;
    }
    match &a.keyword {
        Some(k) => {
            let page: i64 = match a.page {
                Some(n) => if n > 1 {
                    n
                } else {
                    1
                },
                None => 1,
            };
            Some((k.as_str().to_owned(), page))
        },
        None => None,
    }
}

/// Why a change is not put to the user; `None` where it is.
pub open spec fn refusal(c: CatalogView, name: Seq<char>, a: ArgsView) -> Option<Seq<char>> {
    if name == "merge_books"@ {
        if a.book_ids.len() < 2 {
            Some("合并至少需要两本书。"@)
        } else if exists|i: int|
            0 <= i < a.book_ids.len() && book_of(c.books, (#[trigger] a.book_ids[i]) as int) is None {
            Some("书籍不存在"@)
        } else {
            None
        }
    } else {
        match a.book_id {
            None => Some("缺少 book_id 参数"@),
            Some(id) => if book_of(c.books, id as int) is None {
                Some("书籍不存在"@)
            } else if name == "set_book_status"@ {
                match a.status {
                    None => Some("缺少 status 参数"@),
                    Some(s) => if !is_status(s) {
                        Some("无效的状态:「"@ + s + "」"@)
                    } else if a.review is Some && a.generate_review {
                        Some("review 与 generate_review 互斥"@)
                    } else if (a.review is Some || a.generate_review) && s != "已读"@ {
                        Some("短评仅已读有效"@)
                    } else {
                        None
                    },
                }
            } else {
                None
            },
        }
    }
}

/// Whether a tool proposes a change.
pub open spec fn proposes(name: Seq<char>) -> bool {
    name == "update_book_meta"@ || name == "set_book_status"@ || name == "merge_books"@
}

/// The answer of a tool that proposes a change which the user has yet to confirm.
pub open spec fn pending_json(name: Seq<char>) -> Seq<char> {
    "{\"action\":"@ + json_of_text(name) + ",\"pending_confirmation\":true}"@
}

/// What a tool answers; `online` is what the search gave that it asked for.
pub open spec fn answer_to(
    c: CatalogView,
    library: Option<Seq<char>>,
    name: Seq<char>,
    a: ArgsView,
    online: Option<Result<ClaspSearchPage, String>>,
) -> Seq<char> {
    if name == "search_books"@ || name == "filter_books"@ {
        if name == "search_books"@ && a.keyword is None {
            error_json("缺少 keyword 参数"@)
        } else {
            books_json(
                limited(
                    found(c.books, library, a.keyword, a.status, a.author, a.tag),
                    limit_argument(a.limit, 10, 50) as int,
                ),
            )
        }
    } else if name == "get_book_detail"@ {
        match a.book_id {
            Some(id) => match book_of(c.books, id as int) {
                Some(b) => detail_json(b),
                None => error_json("书籍不存在"@),
            },
            None => error_json("缺少 book_id 参数"@),
        }
    } else if name == "get_book_comments"@ {
        match a.book_id {
            Some(id) => comments_json(
                shown_comments(
                    comments_of(c.comments, id as int),
                    limit_argument(a.limit, 5, 10) as nat,
                ),
            ),
            None => error_json("缺少 book_id 参数"@),
        }
    } else if name == "search_claspclub"@ {
        if a.keyword is None {
            error_json("缺少 keyword 参数"@)
        } else {
            match online {
                Some(Ok(p)) => online_json(p),
                Some(Err(e)) => error_json("在线检索失败: "@ + e@),
                None => error_json("在线检索不可用"@),
            }
        }
    } else if proposes(name) {
        match refusal(c, name, a) {
            Some(e) => error_json(e),
            None => pending_json(name),
        }
    } else {
        error_json("未知工具: "@ + name)
    }
}

/// What a tool answers that is called with the arguments in a JSON text.
pub open spec fn tool_answer(
    c: CatalogView,
    library: Option<Seq<char>>,
    name: Seq<char>,
    args: Seq<char>,
    online: Option<Result<ClaspSearchPage, String>>,
) -> Seq<char> {
    answer_to(c, library, name, args_of(args), online)
}

fn as_ref_str<'a>(o: &'a Option<String>) -> (r: Option<&'a str>)
    ensures
        opt_view(r) == opt_str(*o),
{
    match o {
        Some(s) => Some(s.as_str()),
        None => None,
    }
}

impl Catalog {
    fn books_answer(&self, library: Option<&str>, a: &ToolArgs) -> (r: String)
        ensures
            r@ == books_json(
                limited(
                    found(
                        self@.books,
                        opt_view(library),
                        a@.keyword,
                        a@.status,
                        a@.author,
                        a@.tag,
                    ),
                    limit_argument(a.limit, 10, 50) as int,
                ),
            ),
    {
        let limit: i64 = limit_arg(a.limit, 10, 50);
        let books = self.search_chatbot_books(
            library,
            as_ref_str(&a.keyword),
            as_ref_str(&a.status),
            as_ref_str(&a.author),
            as_ref_str(&a.tag),
            limit,
        );
        let ghost all = limited(
            found(self@.books, opt_view(library), a@.keyword, a@.status, a@.author, a@.tag),
            limit as int,
        );
        let ghost want = all.map_values(|b: BookView| book_json(b));
        let mut items: Vec<String> = Vec::new();
        let mut i: usize = 0;
        assert(strs(items@) =~= want.take(0));
        while i < books.len()
            invariant
                i <= books@.len(),
                books@.len() == all.len(),
                want == all.map_values(|b: BookView| book_json(b)),
                forall|k: int| 0 <= k < books@.len() ==> chatbot_row_is(#[trigger] books@[k], all[k]),
                strs(items@) == want.take(i as int),
            decreases books@.len() - i,
        {
            let s = json_book(&books[i], Ghost(all[i as int]));
            proof {
                strs_push(items@, s);
            }
            items.push(s);
            i += 1;
            assert(strs(items@) =~= want.take(i as int));
        }
        assert(want.take(books@.len() as int) =~= want);
        "{\"books\":[".to_owned().concat(&joined(&items, ",")).concat("],\"count\":").concat(
            &dec_u64(books.len() as u64),
        ).concat("}")
    }

    fn comments_answer(&self, id: i64, limit: i64) -> (r: String)
        requires
            limit >= 1,
        ensures
            r@ == comments_json(
                shown_comments(comments_of(self@.comments, id as int), limit as nat),
            ),
    {
        let rows = self.get_comments_for_book(id);
        let ghost all = comments_of(self@.comments, id as int);
        let ghost f = |c: CommentView| c.is_mine != 1;
        let ghost g = |c: CommentView| comment_json(c);
        let ghost mut some: Seq<CommentView> = Seq::empty();
        let mut items: Vec<String> = Vec::new();
        let mut i: usize = 0;
        proof {
            filter_none(all, f);
            assert(strs(items@) =~= some.map_values(g));
            assert(some =~= shown_comments(all.take(0), limit as nat));
        }
        while i < rows.len()
            invariant
                i <= rows@.len(),
                rows@.len() == all.len(),
                limit >= 1,
                f == (|c: CommentView| c.is_mine != 1),
                g == (|c: CommentView| comment_json(c)),
                forall|k: int| 0 <= k < rows@.len() ==> comment_is(#[trigger] rows@[k], all[k]),
                items@.len() == some.len(),
                strs(items@) == some.map_values(g),
                some == shown_comments(all.take(i as int), limit as nat),
            decreases rows@.len() - i,
        {
            proof {
                filter_step(all, i as int, f);
                let w = (CommentRec { book_id: 0, row: rows@[i as int] })@;
                assert(w.is_mine == all[i as int].is_mine);
            }
            let ghost before = some;
            let ghost fetched = all.take(i as int).filter(f);
            if rows[i].is_mine != 1 && (items.len() as u64) < limit as u64 {
                let s = json_comment(&rows[i], Ghost(all[i as int]));
                proof {
                    strs_push(items@, s);
                    some = some.push(all[i as int]);
                    assert(some.map_values(g) =~= before.map_values(g).push(s@));
                    assert(fetched.len() < limit);
                }
                items.push(s);
            } else {
                proof {
                    if all[i as int].is_mine != 1 {
                        assert(before.len() >= limit);
                        assert(fetched.push(all[i as int]).take(limit as int) =~= fetched.take(
                            limit as int,
                        ));
                        assert(fetched.len() == limit ==> fetched.take(limit as int) =~= fetched);
                    }
                }
            }
            i += 1;
        }
        assert(all.take(rows@.len() as int) =~= all);
        "{\"comments\":[".to_owned().concat(&joined(&items, ",")).concat("],\"count\":").concat(
            &dec_u64(items.len() as u64),
        ).concat("}")
    }

    fn refuse(&self, name: &str, a: &ToolArgs) -> (r: Option<String>)
        requires
            self.wf(),
        ensures
            opt_str(r) == refusal(self@, name@, a@),
    {
        if same(name, "merge_books") {
            if a.book_ids.len() < 2 {
                return Some("合并至少需要两本书。".to_owned());
            }
            let mut i: usize = 0;
            while i < a.book_ids.len()
                invariant
                    i <= a.book_ids@.len(),
                    self.wf(),
                    a.book_ids@.len() >= 2,
                    name@ == "merge_books"@,
                    forall|k: int|
                        0 <= k < i ==> book_of(self@.books, (#[trigger] a.book_ids@[k]) as int)
                            is Some,
                decreases a.book_ids@.len() - i,
            {
                if self.get_book_detail(a.book_ids[i]).is_none() {
                    assert(book_of(self@.books, a@.book_ids[i as int] as int) is None);
                    return Some("书籍不存在".to_owned());
                }
                i += 1;
            }
            return None;
        }
        let id: i64 = match a.book_id {
            Some(id) => id,
            None => {
                return Some("缺少 book_id 参数".to_owned());
            },
        };
        if self.get_book_detail(id).is_none() {
            return Some("书籍不存在".to_owned());
        }
        if !same(name, "set_book_status") {
            return None;
        }
        let status = match &a.status {
            Some(s) => s,
            None => {
                return Some("缺少 status 参数".to_owned());
            },
        };
        match check_status(status) {
            Ok(_) => {},
            Err(e) => {
                return Some(e);
            },
        }
        if a.review.is_some() && a.generate_review {
            return Some("review 与 generate_review 互斥".to_owned());
        }
        if (a.review.is_some() || a.generate_review) && !same(status, "已读") {
            return Some("短评仅已读有效".to_owned());
        }
        None
    }

    /// What a tool answers; `online` is what the search gave that it asked for. A tool that
    /// proposes a change makes none.
    pub fn answer_tool(
        &self,
        library: Option<&str>,
        name: &str,
        a: &ToolArgs,
        online: &Option<Result<ClaspSearchPage, String>>,
    ) -> (r: String)
        requires
            self.wf(),
        ensures
            r@ == answer_to(self@, opt_view(library), name@, a@, *online),
    {
        if same(name, "search_books") || same(name, "filter_books") {
            if same(name, "search_books") && a.keyword.is_none() {
                return json_error("缺少 keyword 参数");
            }
            self.books_answer(library, a)
        } else if same(name, "get_book_detail") {
            match a.book_id {
                Some(id) => match self.get_book_detail(id) {
                    Some(d) => {
                        let ghost v = book_of(self@.books, id as int)->0;
                        json_detail(&d, Ghost(v))
                    },
                    None => json_error("书籍不存在"),
                },
                None => json_error("缺少 book_id 参数"),
            }
        } else if same(name, "get_book_comments") {
            match a.book_id {
                Some(id) => self.comments_answer(id, limit_arg(a.limit, 5, 10)),
                None => json_error("缺少 book_id 参数"),
            }
        } else if same(name, "search_claspclub") {
            if a.keyword.is_none() {
                return json_error("缺少 keyword 参数");
            }
            match online {
                Some(Ok(p)) => format_clasp_results(p),
                Some(Err(e)) => json_error(&"在线检索失败: ".to_owned().concat(e)),
                None => json_error("在线检索不可用"),
            }
        } else if same(name, "update_book_meta") || same(name, "set_book_status") || same(
            name,
            "merge_books",
        ) {
            match self.refuse(name, a) {
                Some(e) => json_error(&e),
                None => "{\"action\":".to_owned().concat(&write_text(name)).concat(
                    ",\"pending_confirmation\":true}",
                ),
            }
        } else {
            json_error(&"未知工具: ".to_owned().concat(name))
        }
    }

    /// What a tool answers that is called with the arguments in a JSON text.
    pub fn execute_chatbot_tool(
        &self,
        library: Option<&str>,
        name: &str,
        args: &str,
        online: &Option<Result<ClaspSearchPage, String>>,
    ) -> (r: String)
        requires
            self.wf(),
        ensures
            r@ == tool_answer(self@, opt_view(library), name@, args@, *online),
    {
        self.answer_tool(library, name, &tool_args(args), online)
    }
}

// ---- a talk ----

/// Where a talk stands.
#[derive(Debug)]
pub enum ChatPhase {
    /// The model is to be asked.
    Asking,
    /// The model is to be asked for the last time, without tools.
    Closing,
    /// The reply.
    Replied(ChatReplyDto),
    /// Why there is no reply.
    Failed(String),
}

/// A talk with the assistant.
#[derive(Debug)]
pub struct Chatbot {
    pub msgs: Vec<Message>,
    /// The calls of tools so far.
    pub steps: Vec<ChatStepDto>,
    /// Whether the model may call tools.
    pub tools_enabled: bool,
    /// How many rounds of tools there were.
    pub rounds: usize,
    pub phase: ChatPhase,
}

/// A message, by its characters.
#[verifier::ext_equal]
pub struct SaidView {
    pub role: Seq<char>,
    pub content: Seq<char>,
}

/// The messages of a talk.
pub open spec fn said(v: Seq<ChatMessageDto>) -> Seq<SaidView> {
    v.map_values(|m: ChatMessageDto| SaidView { role: m.role@, content: m.content@ })
}

/// Whether a message is the user's or the model's.
pub open spec fn is_talk(m: SaidView) -> bool {
    m.role == "user"@ || m.role == "assistant"@
}

/// The messages that the model is shown: the last of those that are the user's or its own.
pub open spec fn recent(v: Seq<SaidView>) -> Seq<SaidView> {
    let talk = v.filter(|m: SaidView| is_talk(m));
    if talk.len() <= CHATBOT_HISTORY_MAX {
        talk
    } else {
        talk.skip(talk.len() - CHATBOT_HISTORY_MAX)
    }
}

/// Whether the messages are the system's, then those that are shown.
pub open spec fn opens_talk(msgs: Seq<Message>, system: Seq<char>, talk: Seq<SaidView>) -> bool {
    &&& msgs.len() == talk.len() + 1
    &&& msgs[0].is_plain("system"@, system)
    &&& forall|i: int|
        0 <= i < talk.len() ==> (#[trigger] msgs[i + 1]).is_plain(talk[i].role, talk[i].content)
}

/// At most 1500 characters.
pub open spec fn cut(s: Seq<char>) -> Seq<char> {
    if s.len() <= 1500 {
        s
    } else {
        s.take(1500)
    }
}

fn cut_text(s: &str) -> (r: String)
    ensures
        r@ == cut(s@),
{
    let v = chars_of(s);
    if v.len() <= 1500 {
        s.to_owned()
    } else {
        assert(v@.take(1500) =~= v@.subrange(0, 1500));
        string_of_range(&v, 0, 1500)
    }
}

/// Whether `t` shows the call and what the tool answered.
pub open spec fn is_step(
    t: ChatStepDto,
    call: ToolCall,
    c: CatalogView,
    library: Option<Seq<char>>,
    online: Option<Result<ClaspSearchPage, String>>,
) -> bool {
    &&& t.tool@ == call.name@
    &&& t.args@ == call.arguments@
    &&& t.result@ == cut(tool_answer(c, library, call.name@, call.arguments@, online))
}

/// Whether `m` gives the model what a tool answered.
pub open spec fn is_answer(
    m: Message,
    call: ToolCall,
    c: CatalogView,
    library: Option<Seq<char>>,
    online: Option<Result<ClaspSearchPage, String>>,
) -> bool {
    &&& m.role@ == "tool"@
    &&& m.content@ == tool_answer(c, library, call.name@, call.arguments@, online)
    &&& m.tool_calls is None
    &&& opt_str(m.tool_call_id) == Some(call.id@)
}

/// The calls that the model asks for.
pub open spec fn calls_of(o: ChatOutcome) -> Seq<ToolCall> {
    match o.tool_calls {
        Some(v) => v@,
        None => Seq::empty(),
    }
}

/// The online searches that the calls of the model ask for, one entry for each call.
pub fn searches_of(o: &ChatOutcome) -> (r: Vec<Option<(String, i64)>>)
    ensures
        r@.len() == calls_of(*o).len(),
        forall|i: int|
            0 <= i < r@.len() ==> (match #[trigger] r@[i] {
                Some(s) => Some((s.0@, s.1)),
                None => None,
            }) == search_asked(calls_of(*o)[i].name@, args_of(calls_of(*o)[i].arguments@)),
{
    let mut out: Vec<Option<(String, i64)>> = Vec::new();
    match &o.tool_calls {
        Some(calls) => {
            let mut i: usize = 0;
            while i < calls.len()
                invariant
                    i <= calls@.len(),
                    calls@ == calls_of(*o),
                    out@.len() == i,
                    forall|k: int|
                        0 <= k < out@.len() ==> (match #[trigger] out@[k] {
                            Some(s) => Some((s.0@, s.1)),
                            None => None,
                        }) == search_asked(
                            calls_of(*o)[k].name@,
                            args_of(calls_of(*o)[k].arguments@),
                        ),
                decreases calls@.len() - i,
            {
                let a = tool_args(&calls[i].arguments);
                out.push(online_search(&calls[i].name, &a));
                i += 1;
            }
        },
        None => {},
    }
    out
}

/// Whether the model says that it knows no tools.
pub open spec fn knows_no_tools(e: LlmError) -> bool {
    e is Api && {
        let text = lowercase(e.text());
        has_part(text, "tool"@) || has_part(text, "function"@) || has_part(text, "http 400"@)
    }
}

impl Chatbot {
    /// There are never too many rounds of tools.
    pub open spec fn wf(&self) -> bool {
        self.rounds <= CHATBOT_MAX_ROUNDS
    }

    /// How many times the model may still be asked.
    pub open spec fn calls_left(&self) -> int {
        match self.phase {
            ChatPhase::Asking => CHATBOT_MAX_ROUNDS - self.rounds + 2 + (if self.tools_enabled {
                1int
            } else {
                0
            }),
            ChatPhase::Closing => 1,
            _ => 0,
        }
    }

    /// Opens a talk. It needs a message and a model.
    pub fn start(system: &str, messages: &Vec<ChatMessageDto>, configured: bool) -> (r: Result<
        Chatbot,
        String,
    >)
        ensures
            match r {
                Ok(t) => {
                    &&& messages@.len() > 0
                    &&& configured
                    &&& t.wf()
                    &&& t.phase is Asking
                    &&& t.tools_enabled
                    &&& t.rounds == 0
                    &&& t.steps@.len() == 0
                    &&& opens_talk(t.msgs@, system@, recent(said(messages@)))
                },
                Err(e) => if messages@.len() == 0 {
                    e@ == "消息不能为空"@
                } else {
                    !configured && e@ == "未配置 LLM（请在设置页配置后重试）"@
                },
            },
    {
        if messages.len() == 0 {
            return Err("消息不能为空".to_owned());
        }
        if !configured {
            return Err("未配置 LLM（请在设置页配置后重试）".to_owned());
        }
        let ghost all = said(messages@);
        let ghost f = |m: SaidView| is_talk(m);
        let mut talk: Vec<usize> = Vec::new();
        let mut i: usize = 0;
        proof {
            filter_none(all, f);
            assert(crate::seqs::picked(all, talk@) =~= all.take(0).filter(f));
        }
        while i < messages.len()
            invariant
                i <= messages@.len(),
                all == said(messages@),
                f == (|m: SaidView| is_talk(m)),
                forall|k: int| 0 <= k < talk@.len() ==> (#[trigger] talk@[k]) < messages@.len(),
                crate::seqs::picked(all, talk@) == all.take(i as int).filter(f),
            decreases messages@.len() - i,
        {
            proof {
                filter_step(all, i as int, f);
            }
            let ghost was = talk@;
            if same(&messages[i].role, "user") || same(&messages[i].role, "assistant") {
                talk.push(i);
                assert(crate::seqs::picked(all, talk@) =~= crate::seqs::picked(all, was).push(
                    all[i as int],
                ));
            }
            i += 1;
        }
        assert(all.take(messages@.len() as int) =~= all);
        let ghost picked = crate::seqs::picked(all, talk@);
        assert(picked.len() == talk@.len());
        let from: usize = if talk.len() > CHATBOT_HISTORY_MAX {
            talk.len() - CHATBOT_HISTORY_MAX
        } else {
            0
        };
        let ghost shown = recent(all);
        assert(shown =~= picked.skip(from as int));
        let mut msgs: Vec<Message> = Vec::new();
        msgs.push(Message::system(system));
        let mut k: usize = from;
        while k < talk.len()
            invariant
                from <= k <= talk@.len(),
                all == said(messages@),
                picked == crate::seqs::picked(all, talk@),
                picked.len() == talk@.len(),
                shown == picked.skip(from as int),
                forall|j: int| 0 <= j < talk@.len() ==> (#[trigger] talk@[j]) < messages@.len(),
                msgs@.len() == k - from + 1,
                msgs@[0].is_plain("system"@, system@),
                forall|j: int|
                    0 <= j < k - from ==> (#[trigger] msgs@[j + 1]).is_plain(
                        shown[j].role,
                        shown[j].content,
                    ),
            decreases talk@.len() - k,
        {
            let m = &messages[talk[k]];
            let next = Message {
                role: m.role.as_str().to_owned(),
                content: m.content.as_str().to_owned(),
                tool_calls: None,
                tool_call_id: None,
            };
            assert(shown[k - from] == all[talk@[k as int] as int]);
            assert(next.is_plain(shown[k - from].role, shown[k - from].content));
            let ghost was = msgs@;
            msgs.push(next);
            proof {
                assert forall|j: int| 0 <= j < k + 1 - from implies (#[trigger] msgs@[j
                    + 1]).is_plain(shown[j].role, shown[j].content) by {
                    if j < k - from {
                        assert(msgs@[j + 1] == was[j + 1]);
                    }
                }
            }
            k += 1;
        }
        Ok(
            Chatbot {
                msgs,
                steps: Vec::new(),
                tools_enabled: true,
                rounds: 0,
                phase: ChatPhase::Asking,
            },
        )
    }

    /// Whether the model is to be asked, and whether it may call tools.
    pub fn asks(&self) -> (r: Option<bool>)
        ensures
            r == (match self.phase {
                ChatPhase::Asking => Some(self.tools_enabled),
                ChatPhase::Closing => Some(false),
                _ => None,
            }),
    {
        match self.phase {
            ChatPhase::Asking => Some(self.tools_enabled),
            ChatPhase::Closing => Some(false),
            _ => None,
        }
    }

    fn reply(&mut self, content: String, model: String)
        ensures
            final(self).phase matches ChatPhase::Replied(r) && r.content == content && r.model
                == model && r.steps@ == old(self).steps@,
            final(self).msgs == old(self).msgs,
            final(self).tools_enabled == old(self).tools_enabled,
            final(self).rounds == old(self).rounds,
    {
        let mut steps: Vec<ChatStepDto> = Vec::new();
        steps.append(&mut self.steps);
        assert(steps@ =~= old(self).steps@);
        self.phase = ChatPhase::Replied(ChatReplyDto { content, model, steps });
    }

    fn use_tools(
        &mut self,
        calls: &Vec<ToolCall>,
        catalog: &Catalog,
        library: Option<&str>,
        online: &Vec<Option<Result<ClaspSearchPage, String>>>,
    ) -> (r: Vec<Message>)
        requires
            catalog.wf(),
            online@.len() == calls@.len(),
        ensures
            final(self).msgs == old(self).msgs,
            final(self).phase == old(self).phase,
            final(self).tools_enabled == old(self).tools_enabled,
            final(self).rounds == old(self).rounds,
            final(self).steps@.len() == old(self).steps@.len() + calls@.len(),
            final(self).steps@.take(old(self).steps@.len() as int) == old(self).steps@,
            forall|i: int|
                0 <= i < calls@.len() ==> is_step(
                    #[trigger] final(self).steps@[old(self).steps@.len() + i],
                    calls@[i],
                    catalog@,
                    opt_view(library),
                    online@[i],
                ),
            r@.len() == calls@.len(),
            forall|i: int|
                0 <= i < calls@.len() ==> is_answer(
                    #[trigger] r@[i],
                    calls@[i],
                    catalog@,
                    opt_view(library),
                    online@[i],
                ),
    {
        let ghost start = self.steps@;
        let mut out: Vec<Message> = Vec::new();
        let mut i: usize = 0;
        assert(self.steps@.take(start.len() as int) =~= start);
        while i < calls.len()
            invariant
                i <= calls@.len(),
                online@.len() == calls@.len(),
                catalog.wf(),
                start == old(self).steps@,
                self.msgs == old(self).msgs,
                self.phase == old(self).phase,
                self.tools_enabled == old(self).tools_enabled,
                self.rounds == old(self).rounds,
                self.steps@.len() == start.len() + i,
                self.steps@.take(start.len() as int) == start,
                out@.len() == i,
                forall|k: int|
                    0 <= k < i ==> is_step(
                        #[trigger] self.steps@[start.len() + k],
                        calls@[k],
                        catalog@,
                        opt_view(library),
                        online@[k],
                    ),
                forall|k: int|
                    0 <= k < i ==> is_answer(
                        #[trigger] out@[k],
                        calls@[k],
                        catalog@,
                        opt_view(library),
                        online@[k],
                    ),
            decreases calls@.len() - i,
        {
            let call = &calls[i];
            let answer = catalog.execute_chatbot_tool(
                library,
                &call.name,
                &call.arguments,
                &online[i],
            );
            let step = ChatStepDto {
                tool: call.name.as_str().to_owned(),
                args: call.arguments.as_str().to_owned(),
                result: cut_text(&answer),
            };
            assert(is_step(step, calls@[i as int], catalog@, opt_view(library), online@[i as int]));
            let ghost was = self.steps@;
            self.steps.push(step);
            let m = Message {
                role: "tool".to_owned(),
                content: answer,
                tool_calls: None,
                tool_call_id: Some(call.id.as_str().to_owned()),
            };
            assert(is_answer(m, calls@[i as int], catalog@, opt_view(library), online@[i as int]));
            out.push(m);
            proof {
                assert(self.steps@.take(start.len() as int) =~= was.take(start.len() as int));
                assert forall|k: int| 0 <= k < i + 1 implies is_step(
                    #[trigger] self.steps@[start.len() + k],
                    calls@[k],
                    catalog@,
                    opt_view(library),
                    online@[k],
                ) by {
                    if k < i {
                        assert(self.steps@[start.len() + k] == was[start.len() + k]);
                    }
                }
            }
            i += 1;
        }
        out
    }

    /// The model answered. Where it may call tools and does, they are used and it is asked
    /// again; behind the last round it is asked once more, without tools. `online` holds, for
    /// each call, what the search gave that it asked for.
    pub fn answered(
        &mut self,
        o: ChatOutcome,
        catalog: &Catalog,
        library: Option<&str>,
        online: &Vec<Option<Result<ClaspSearchPage, String>>>,
    )
        requires
            old(self).wf(),
            catalog.wf(),
            online@.len() == calls_of(o).len(),
        ensures
            final(self).wf(),
            old(self).calls_left() > 0 ==> final(self).calls_left() < old(self).calls_left(),
            ({
                let calls = calls_of(o);
                let n = old(self).msgs@.len();
                match old(self).phase {
                    ChatPhase::Asking => if calls.len() == 0 || !old(self).tools_enabled {
                        final(self).phase matches ChatPhase::Replied(r) && r.content == o.content
                            && r.model == o.model && r.steps@ == old(self).steps@
                    } else if old(self).rounds >= CHATBOT_MAX_ROUNDS {
                        *final(self) == (Chatbot { phase: ChatPhase::Closing, ..*old(self) })
                    } else {
                        &&& final(self).phase is Asking
                        &&& final(self).tools_enabled
                        &&& final(self).rounds == old(self).rounds + 1
                        &&& final(self).steps@.len() == old(self).steps@.len() + calls.len()
                        &&& final(self).steps@.take(old(self).steps@.len() as int)
                            == old(self).steps@
                        &&& forall|i: int|
                            0 <= i < calls.len() ==> is_step(
                                #[trigger] final(self).steps@[old(self).steps@.len() + i],
                                calls[i],
                                catalog@,
                                opt_view(library),
                                online@[i],
                            )
                        &&& final(self).msgs@.len() == n + 1 + calls.len()
                        &&& final(self).msgs@.take(n as int) == old(self).msgs@
                        &&& final(self).msgs@[n as int] == (Message {
                            role: final(self).msgs@[n as int].role,
                            content: o.content,
                            tool_calls: o.tool_calls,
                            tool_call_id: None,
                        })
                        &&& final(self).msgs@[n as int].role@ == "assistant"@
                        &&& forall|i: int|
                            0 <= i < calls.len() ==> is_answer(
                                #[trigger] final(self).msgs@[n + 1 + i],
                                calls[i],
                                catalog@,
                                opt_view(library),
                                online@[i],
                            )
                    },
                    ChatPhase::Closing => final(self).phase matches ChatPhase::Replied(r)
                        && r.content == o.content && r.model == o.model && r.steps@
                        == old(self).steps@,
                    _ => *final(self) == *old(self),
                }
            }),
    {
        let closing = match self.phase {
            ChatPhase::Asking => false,
            ChatPhase::Closing => true,
            _ => {
                return;
            },
        };
        if closing || !self.tools_enabled {
            self.reply(o.content, o.model);
            return;
        }
        match o.tool_calls {
            None => {
                self.reply(o.content, o.model);
            },
            Some(calls) => {
                if calls.len() == 0 {
                    self.reply(o.content, o.model);
                    return;
                }
                if self.rounds >= CHATBOT_MAX_ROUNDS {
                    self.phase = ChatPhase::Closing;
                    return;
                }
                self.rounds = self.rounds + 1;
                let mut answers = self.use_tools(&calls, catalog, library, online);
                let ghost before = self.msgs@;
                let ghost given = answers@;
                self.msgs.push(
                    Message {
                        role: "assistant".to_owned(),
                        content: o.content,
                        tool_calls: Some(calls),
                        tool_call_id: None,
                    },
                );
                self.msgs.append(&mut answers);
                proof {
                    let n = before.len() as int;
                    assert(self.msgs@.take(n) =~= before);
                    assert forall|i: int| 0 <= i < given.len() implies #[trigger] self.msgs@[n + 1
                        + i] == given[i] by {}
                }
            },
        }
    }

    /// The model did not answer, or the talk was stopped. A model that knows no tools is asked
    /// again without them.
    pub fn failed(&mut self, e: &LlmError, cancelled: bool)
        requires
            old(self).wf(),
        ensures
            final(self).wf(),
            old(self).calls_left() > 0 ==> final(self).calls_left() < old(self).calls_left(),
            match old(self).phase {
                ChatPhase::Asking => if cancelled {
                    final(self).phase matches ChatPhase::Failed(t) && t@ == CANCELLED_MSG@
                } else if old(self).tools_enabled && knows_no_tools(*e) {
                    *final(self) == (Chatbot { tools_enabled: false, ..*old(self) })
                } else {
                    final(self).phase matches ChatPhase::Failed(t) && t@ == e.text()
                },
                ChatPhase::Closing => final(self).phase matches ChatPhase::Failed(t) && t@ == (
                if cancelled {
                    CANCELLED_MSG@
                } else {
                    e.text()
                }),
                _ => *final(self) == *old(self),
            },
    {
        match self.phase {
            ChatPhase::Asking => {
                if cancelled {
                    self.phase = ChatPhase::Failed(CANCELLED_MSG.to_owned());
                    return;
                }
                let text = e.message();
                let lower = to_lower(&text);
                let unknown = contains(&lower, "tool") || contains(&lower, "function") || contains(
                    &lower,
                    "http 400",
                );
                let api = match e {
                    LlmError::Api(_) => true,
                    _ => false,
                };
                if self.tools_enabled && api && unknown {
                    self.tools_enabled = false;
                } else {
                    self.phase = ChatPhase::Failed(text);
                }
            },
            ChatPhase::Closing => {
                if cancelled {
                    self.phase = ChatPhase::Failed(CANCELLED_MSG.to_owned());
                } else {
                    self.phase = ChatPhase::Failed(e.message());
                }
            },
            _ => {},
        }
    }

    /// The talk was stopped before the model was asked.
    pub fn stopped(&mut self)
        requires
            old(self).wf(),
        ensures
            final(self).wf(),
            old(self).calls_left() > 0 ==> (final(self).phase matches ChatPhase::Failed(t) && t@
                == CANCELLED_MSG@),
            old(self).calls_left() == 0 ==> *final(self) == *old(self),
    {
        match self.phase {
            ChatPhase::Asking | ChatPhase::Closing => {
                self.phase = ChatPhase::Failed(CANCELLED_MSG.to_owned());
            },
            _ => {},
        }
    }
}

/// A talk asks the model at most eight times: in each of the rounds, once where they are used
/// up, once without tools, and once more where the model knows none.
pub proof fn talks_are_bounded(t: Chatbot)
    requires
        t.wf(),
    ensures
        0 <= t.calls_left() <= CHATBOT_MAX_ROUNDS + 3,
        t.calls_left() == 0 <==> t.phase is Replied || t.phase is Failed,
{
}

/// Checks the messages of a plain talk: the first is the system's.
pub fn check_talk(messages: &Vec<ChatMessageDto>, configured: bool) -> (r: Result<(), String>)
    ensures
        match r {
            Ok(_) => messages@.len() > 0 && messages@[0].role@ == "system"@ && configured,
            Err(e) => if messages@.len() == 0 {
                e@ == "消息不能为空"@
            } else if messages@[0].role@ != "system"@ {
                e@ == "消息序列必须以 system 开头"@
            } else {
                !configured && e@ == "未配置 LLM（请在设置页配置后重试）"@
            },
        },
{
    if messages.len() == 0 {
        Err("消息不能为空".to_owned())
    } else if !same(&messages[0].role, "system") {
        Err("消息序列必须以 system 开头".to_owned())
    } else if !configured {
        Err("未配置 LLM（请在设置页配置后重试）".to_owned())
    } else {
        Ok(())
    }
}

/// The messages of a plain talk.
pub fn plain_messages(messages: &Vec<ChatMessageDto>) -> (r: Vec<Message>)
    ensures
        r@.len() == messages@.len(),
        forall|i: int|
            0 <= i < r@.len() ==> (#[trigger] r@[i]).is_plain(
                messages@[i].role@,
                messages@[i].content@,
            ),
{
    let mut out: Vec<Message> = Vec::new();
    let mut i: usize = 0;
    while i < messages.len()
        invariant
            i <= messages@.len(),
            out@.len() == i,
            forall|k: int|
                0 <= k < i ==> (#[trigger] out@[k]).is_plain(
                    messages@[k].role@,
                    messages@[k].content@,
                ),
        decreases messages@.len() - i,
    {
        out.push(
            Message {
                role: messages[i].role.as_str().to_owned(),
                content: messages[i].content.as_str().to_owned(),
                tool_calls: None,
                tool_call_id: None,
            },
        );
        i += 1;
    }
    out
}

// ---- what the assistant says and knows ----

/// A search answers with the books that are found, in their order, up to the limit; each with its
/// title, its author, its identifier, its state and its tags.
pub proof fn a_search_answers_with_what_is_found(
    c: CatalogView,
    library: Option<Seq<char>>,
    a: ArgsView,
    online: Option<Result<ClaspSearchPage, String>>,
    i: int,
)
    requires
        a.keyword is Some,
        0 <= i < found(c.books, library, a.keyword, a.status, a.author, a.tag).len(),
        i < limit_argument(a.limit, 10, 50),
    ensures
        ({
            let b = found(c.books, library, a.keyword, a.status, a.author, a.tag)[i];
            let r = answer_to(c, library, "search_books"@, a, online);
            let author = match b.author {
                Some(t) => t,
                None => Seq::empty(),
            };
            &&& has_part(r, book_json(b))
            &&& has_part(book_json(b), ",\"title\":"@ + json_of_text(b.title))
            &&& has_part(book_json(b), "{\"author\":"@ + json_of_text(author))
            &&& has_part(book_json(b), ",\"book_id\":"@ + dec_int(b.id))
            &&& has_part(book_json(b), ",\"status\":"@ + json_of_text(status_of(b)))
        }),
{
    let all = found(c.books, library, a.keyword, a.status, a.author, a.tag);
    let books = limited(all, limit_argument(a.limit, 10, 50) as int);
    let v = books.map_values(|b: BookView| book_json(b));
    let b = all[i];
    assert(books[i] == b);
    let (x, y) = parts_of_a_join(v, ","@, i);
    let head = "{\"books\":["@;
    let tail = "],\"count\":"@ + dec(books.len()) + "}"@;
    let r = answer_to(c, library, "search_books"@, a, online);
    assert(r =~= (head + x) + book_json(b) + (y + tail));
    parts_stand_in_the_whole(head + x, book_json(b), y + tail);
    reveal_strlit("");
    assert(""@ =~= Seq::<char>::empty());
    let p1 = "{\"author\":"@ + json_of_text(coalesce(b.author, ""@));
    let p2 = ",\"book_id\":"@ + dec_int(b.id);
    let p3 = ",\"status\":"@ + json_of_text(status_of(b));
    let p4 = ",\"tags\":"@ + json_of_text(coalesce(b.tags, ""@));
    let p5 = ",\"title\":"@ + json_of_text(b.title);
    four_parts(p1, p2, p3, p4, p5, "}"@);
    assert(book_json(b) =~= p1 + p2 + p3 + p4 + p5 + "}"@);
}

proof fn four_parts(
    a: Seq<char>,
    b: Seq<char>,
    c: Seq<char>,
    d: Seq<char>,
    e: Seq<char>,
    f: Seq<char>,
)
    ensures
        has_part(a + b + c + d + e + f, a),
        has_part(a + b + c + d + e + f, b),
        has_part(a + b + c + d + e + f, c),
        has_part(a + b + c + d + e + f, d),
        has_part(a + b + c + d + e + f, e),
{
    let all = a + b + c + d + e + f;
    let none = Seq::<char>::empty();
    assert(all =~= none + a + (b + c + d + e + f));
    parts_stand_in_the_whole(none, a, b + c + d + e + f);
    assert(all =~= a + b + (c + d + e + f));
    parts_stand_in_the_whole(a, b, c + d + e + f);
    assert(all =~= (a + b) + c + (d + e + f));
    parts_stand_in_the_whole(a + b, c, d + e + f);
    assert(all =~= (a + b + c) + d + (e + f));
    parts_stand_in_the_whole(a + b + c, d, e + f);
    assert(all =~= (a + b + c + d) + e + f);
    parts_stand_in_the_whole(a + b + c + d, e, f);
}

/// Where a number is asked for it is between one and the most that may be: the one that is given
/// within these bounds.
pub proof fn numbers_are_kept_in_bounds(limit: Option<i64>, other: i64, max: i64)
    requires
        1 <= other <= max,
    ensures
        1 <= limit_argument(limit, other, max) <= max,
        limit is None ==> limit_argument(limit, other, max) == other,
        limit matches Some(n) && 1 <= n <= max ==> limit_argument(limit, other, max) == limit->0,
        limit matches Some(n) && n < 1 ==> limit_argument(limit, other, max) == 1,
        limit matches Some(n) && n > max ==> limit_argument(limit, other, max) == max,
{
}

/// The comments that are shown are the first that the reader did not write, in the order in
/// which comments are listed; no more than may be, and all of them where there are fewer.
pub proof fn the_first_comments_are_shown(v: Seq<CommentView>, n: nat, i: int)
    ensures
        shown_comments(v, n).len() <= n,
        0 <= i < shown_comments(v, n).len() ==> shown_comments(v, n)[i].is_mine != 1 && v.contains(
            shown_comments(v, n)[i],
        ),
        shown_comments(v, n).is_prefix_of(v.filter(|c: CommentView| c.is_mine != 1)),
        shown_comments(v, n).len() < n ==> shown_comments(v, n) == v.filter(
            |c: CommentView| c.is_mine != 1,
        ),
{
    let f = |c: CommentView| c.is_mine != 1;
    filter_from(v, f);
    let all = v.filter(f);
    assert(all.take(all.len() as int) =~= all);
}

/// Of a talk the model is shown the last messages that are the user's or its own, sixteen at
/// most, in their order.
pub proof fn the_last_messages_are_shown(v: Seq<SaidView>, i: int)
    ensures
        recent(v).len() <= 16,
        0 <= i < recent(v).len() ==> recent(v)[i].role == "user"@ || recent(v)[i].role
            == "assistant"@,
        recent(v).is_suffix_of(v.filter(|m: SaidView| m.role == "user"@ || m.role == "assistant"@)),
        recent(v).len() < 16 ==> recent(v) == v.filter(
            |m: SaidView| m.role == "user"@ || m.role == "assistant"@,
        ),
{
    let f = |m: SaidView| is_talk(m);
    assert(f =~= (|m: SaidView| m.role == "user"@ || m.role == "assistant"@));
    let talk = v.filter(f);
    filter_from(v, f);
    assert(talk.subrange(0, talk.len() as int) =~= talk);
    if talk.len() > 16 {
        let r = recent(v);
        assert(r =~= talk.subrange(talk.len() - 16, talk.len() as int));
        if 0 <= i < r.len() {
            assert(r[i] == talk[talk.len() - 16 + i]);
        }
    }
}

/// The model is told of every book of the library in use, forty at most.
pub proof fn the_model_is_told_of_every_book(
    c: CatalogView,
    cfg: AppConfig,
    library: Option<Seq<char>>,
    i: int,
)
    requires
        0 <= i < found(c.books, library, None, None, None, None).len(),
        i < 40,
    ensures
        has_part(
            chatbot_system(c, cfg, library),
            book_knowledge(found(c.books, library, None, None, None, None)[i], c.comments),
        ),
{
    let all = found(c.books, library, None, None, None, None);
    let books = limited(all, 40);
    let b = all[i];
    let t = book_knowledge(b, c.comments);
    assert(books[i] == b);
    let (x, y) = knowledge_holds(books, c.comments, i);
    let s = chatbot_system(c, cfg, library);
    let head = "你是本地推理小说书架应用的阅读助手「书虫」。用户正在使用「"@ + library_title(cfg) + "」书库（共 "@ + dec(
        books.len(),
    ) + CHATBOT_TASK@;
    assert(s == head + knowledge(books, c.comments));
    assert(head + (x + t + y) =~= (head + x) + t + y);
    parts_stand_in_the_whole(head + x, t, y);
}

/// Of a book the model is told the title, the author, the state, and the review that the reader
/// wrote of it.
pub proof fn what_the_model_is_told_of_a_book(b: BookView, comments: Seq<CommentView>)
    ensures
        has_part(book_knowledge(b, comments), "- 《"@ + b.title + "》｜作者："@),
        has_part(book_knowledge(b, comments), "｜状态："@ + status_of(b)),
        (b.author matches Some(a) && a.len() > 0) ==> has_part(
            book_knowledge(b, comments),
            b.author->0,
        ),
        (b.my_review matches Some(m) && !is_blank(m) && trim(m).len() <= 60) ==> has_part(
            book_knowledge(b, comments),
            "  我的书评："@ + trim(b.my_review->0) + "\n"@,
        ),
{
    let who = coalesce(b.author, ""@);
    let author = if who.len() == 0 {
        "佚名"@
    } else {
        who
    };
    let tags = coalesce(b.tags, ""@);
    let done = match b.finished_date {
        Some(d) => "｜读完于 "@ + d,
        None => Seq::empty(),
    };
    let kinds = if is_blank(tags) {
        Seq::empty()
    } else {
        "  标签："@ + tags + "\n"@
    };
    lines_of_a_book(
        "- 《"@ + b.title + "》｜作者："@,
        author,
        "｜状态："@,
        status_of(b),
        done,
        "\n"@,
        kinds,
        knowledge_line("  简介："@, b.description, 80),
        first_comment(comments, b.id),
        knowledge_line("  我的书评："@, b.my_review, 60),
    );
}

proof fn lines_of_a_book(
    a: Seq<char>,
    b: Seq<char>,
    c: Seq<char>,
    d: Seq<char>,
    e: Seq<char>,
    f: Seq<char>,
    g: Seq<char>,
    h: Seq<char>,
    i: Seq<char>,
    j: Seq<char>,
)
    ensures
        ({
            let all = a + b + c + d + e + f + g + h + i + j;
            &&& has_part(all, a)
            &&& has_part(all, b)
            &&& has_part(all, c + d)
            &&& has_part(all, j)
        }),
{
    let all = a + b + c + d + e + f + g + h + i + j;
    let none = Seq::<char>::empty();
    let q = a + b + (c + d);
    let rest = e + f + g + h + i;
    four_parts(a, b, c + d, rest, j, none);
    regrouped(a + b, c, d);
    regrouped(q, e, f);
    regrouped(q, e + f, g);
    regrouped(q, e + f + g, h);
    regrouped(q, e + f + g + h, i);
    assert(all == q + rest + j);
    assert(q + rest + j + none =~= q + rest + j);
}

proof fn regrouped(x: Seq<char>, y: Seq<char>, z: Seq<char>)
    ensures
        x + y + z == x + (y + z),
{
    assert(x + y + z =~= x + (y + z));
}

proof fn knowledge_holds(books: Seq<BookView>, comments: Seq<CommentView>, i: int) -> (r: (
    Seq<char>,
    Seq<char>,
))
    requires
        0 <= i < books.len(),
    ensures
        knowledge(books, comments) == r.0 + book_knowledge(books[i], comments) + r.1,
    decreases books.len(),
{
    let init = books.drop_last();
    let none = Seq::<char>::empty();
    if i == books.len() - 1 {
        let x = knowledge(init, comments);
        assert(knowledge(books, comments) =~= x + book_knowledge(books[i], comments) + none);
        (x, none)
    } else {
        let (x, y) = knowledge_holds(init, comments, i);
        let z = y + book_knowledge(books.last(), comments);
        assert(init[i] == books[i]);
        assert(knowledge(books, comments) =~= x + book_knowledge(books[i], comments) + z);
        (x, z)
    }
}

/// A change is put to the user where nothing speaks against it: books to merge are at least two
/// and all there; any other change names a book that is there; and a state is one of the three,
/// with a review, given or to be written but not both, only for a book that is read.
pub proof fn which_changes_are_put_to_the_user(c: CatalogView, name: Seq<char>, a: ArgsView)
    ensures
        name == "merge_books"@ ==> (refusal(c, name, a) is None <==> a.book_ids.len() >= 2
            && forall|i: int|
            0 <= i < a.book_ids.len() ==> book_of(c.books, (#[trigger] a.book_ids[i]) as int)
                is Some),
        name != "merge_books"@ && name != "set_book_status"@ ==> (refusal(c, name, a) is None
            <==> a.book_id is Some && book_of(c.books, a.book_id->0 as int) is Some),
        name == "set_book_status"@ && name != "merge_books"@ ==> (refusal(c, name, a) is None <==> {
            &&& a.book_id is Some && book_of(c.books, a.book_id->0 as int) is Some
            &&& a.status is Some && (a.status->0 == "想读"@ || a.status->0 == "在读"@ || a.status->0
                == "已读"@)
            &&& !(a.review is Some && a.generate_review)
            &&& a.review is Some || a.generate_review ==> a.status->0 == "已读"@
        }),
{
}

/// A text is shortened to its first characters, with a mark behind them, where it is too long;
/// else it is only trimmed.
pub proof fn what_shortening_keeps(s: Seq<char>, max: nat)
    ensures
        trim(s).len() <= max ==> shortened(s, max) == trim(s),
        trim(s).len() > max ==> shortened(s, max) == trim(s).take(max as int) + "…"@,
{
}

/// The arguments of a call are what stands under their names: texts without white space at their
/// ends, and none where they are blank; a flag counts where it is set.
pub proof fn arguments_stand_under_their_names(text: Seq<char>)
    ensures
        ({
            let a = args_of(text);
            &&& a.keyword == text_argument(text, "keyword"@)
            &&& a.status == text_argument(text, "status"@)
            &&& a.author == text_argument(text, "author"@)
            &&& a.tag == text_argument(text, "tag"@)
            &&& a.review == text_argument(text, "review"@)
            &&& a.limit == int_of_json(text, "limit"@)
            &&& a.page == int_of_json(text, "page"@)
            &&& a.book_id == int_of_json(text, "book_id"@)
            &&& a.generate_review <==> bool_of_json(text, "generate_review"@) == Some(true)
            &&& array_of_json(text, "book_ids"@) matches Some(Some(v)) ==> a.book_ids == ids_in(v)
        }),
        text_of_json(text, "keyword"@) matches Some(s) ==> (is_blank(s) ==> text_argument(
            text,
            "keyword"@,
        ) is None) && (!is_blank(s) ==> text_argument(text, "keyword"@) == Some(trim(s))),
{
}

/// The identifiers in a list are all its elements that are numbers, in order.
pub proof fn every_number_counts(a: Seq<Seq<char>>, x: Seq<char>, n: int)
    ensures
        (parse_int(x) == Some(n) && i64::MIN <= n <= i64::MAX) ==> ids_in(a.push(x)) == ids_in(
            a,
        ).push(n as i64),
        parse_int(x) is None ==> ids_in(a.push(x)) == ids_in(a),
        ids_in(Seq::empty()).len() == 0,
{
    assert(a.push(x).drop_last() =~= a);
}

/// A search on the book site is for the keyword, on the page that is asked for, and on the first
/// without one.
pub proof fn what_a_call_searches_for(a: ArgsView)
    ensures
        a.keyword is None ==> search_asked("search_claspclub"@, a) is None,
        a.keyword matches Some(k) ==> search_asked("search_claspclub"@, a) == Some(
            (
                k,
                if a.page is Some && a.page->0 > 1 {
                    a.page->0
                } else {
                    1
                },
            ),
        ),
{
}

} // verus!
