//! Finishing a book: a talk about it that ends in a review.
use vstd::prelude::*;
use vstd::string::*;

use crate::agent::Message;
use crate::db::{with_book, BookView, Catalog, CatalogView, CommentView};
use crate::queries::BookSummary;
use crate::sources::with_new_comment;
use crate::text::{
    blank, dec, dec_u64, has_part, is_blank, join, joined, parts_of_a_join,
    parts_stand_in_the_whole, same, strs, strs_push, trim, trimmed,
};

verus! {

/// Why a book could not be finished.
#[derive(Debug)]
pub enum FinishError {
    DbError(String),
    LlmError(String),
    UserAbort,
    IoError(String),
    Other(String),
}

impl FinishError {
    /// The text of the error.
    pub open spec fn text(self) -> Seq<char> {
        match self {
            FinishError::DbError(e) => "数据库错误: "@ + e@,
            FinishError::LlmError(e) => "LLM 错误: "@ + e@,
            FinishError::UserAbort => "用户取消了操作"@,
            FinishError::IoError(e) => "IO 错误: "@ + e@,
            FinishError::Other(e) => e@,
        }
    }

    /// The text of the error.
    pub fn message(&self) -> (r: String)
        ensures
            r@ == self.text(),
    {
        match self {
            FinishError::DbError(e) => "数据库错误: ".to_owned().concat(e),
            FinishError::LlmError(e) => "LLM 错误: ".to_owned().concat(e),
            FinishError::UserAbort => "用户取消了操作".to_owned(),
            FinishError::IoError(e) => "IO 错误: ".to_owned().concat(e),
            FinishError::Other(e) => e.as_str().to_owned(),
        }
    }
}

/// The line for a book in the list of those that can be finished.
pub fn book_line(b: &BookSummary) -> (r: String)
    ensures
        r@ == "《"@ + b.title@ + "》- "@ + b.author@,
{
    "《".to_owned().concat(&b.title).concat("》- ").concat(&b.author)
}

// ---- the talk ----

/// What the model is asked to do in a talk.
pub const TALK_TASK: &'static str = "

你的任务：
1. 通过提问引导用户说出对这本书的感受、对诡计/反转的评价、对人物的看法。
2. 问题要具体（例如：\"你觉得凶手的动机是否合理？\"\"哪个场景让你最毛骨悚然？\"\"你对这个结局满意吗？\"）。
3. 当用户表达观点后，可以结合参考短评进行追问（\"有读者认为节奏拖沓，你认同吗？\"）。
4. 保持对话自然，每次回复控制在 100 字以内。
5. 当用户输入 /done 时，停止提问，输出一段基于本次对话的总结性书评。";

/// What opens a talk.
pub const TALK_OPENING: &'static str = "请用一句话开场，引导我开始聊聊这本书。";

/// What asks for the review.
pub const TALK_REVIEW: &'static str =
    "基于刚才我们所有的对话，请以第一人称\"我\"的口吻，写一篇 150~300 字的短评。要求逻辑清晰，包含对故事核心悬念或人物的评价，情感真挚。";

/// The comments, numbered from 1.
pub open spec fn numbered(comments: Seq<Seq<char>>) -> Seq<Seq<char>> {
    Seq::new(comments.len(), |i: int| dec((i + 1) as nat) + ". "@ + comments[i])
}

/// The comments as a numbered list.
pub open spec fn comments_text(comments: Seq<Seq<char>>) -> Seq<char> {
    if comments.len() == 0 {
        "（暂无参考短评）"@
    } else {
        join(numbered(comments), "\n"@)
    }
}

fn comment_list(comments: &Vec<String>) -> (r: String)
    ensures
        r@ == comments_text(strs(comments@)),
{
    if comments.len() == 0 {
        return "（暂无参考短评）".to_owned();
    }
    let _len: usize = comments.len();
    let ghost want = numbered(strs(comments@));
    let mut lines: Vec<String> = Vec::new();
    let mut i: usize = 0;
    assert(strs(lines@) =~= want.take(0));
    while i < comments.len()
        invariant
            i <= comments@.len() <= usize::MAX,
            want == numbered(strs(comments@)),
            strs(lines@) == want.take(i as int),
        decreases comments@.len() - i,
    {
        let line = dec_u64(i as u64 + 1).concat(". ").concat(&comments[i]);
        proof {
            strs_push(lines@, line);
            assert(want[i as int] == line@);
        }
        lines.push(line);
        i += 1;
        assert(strs(lines@) =~= want.take(i as int));
    }
    assert(want.take(comments@.len() as int) =~= want);
    joined(&lines, "\n")
}

/// What the model is told before a talk about a book.
pub open spec fn system_prompt(
    title: Seq<char>,
    author: Seq<char>,
    tags: Seq<char>,
    comments: Seq<Seq<char>>,
) -> Seq<char> {
    "你是一位资深推理小说评论家，正在帮助读者复盘刚读完的《"@ + title + "》（作者："@ + author + "）。\n这本书的标签是："@
        + tags + "。\n以下是其他读者的一些观点（供参考，若用户提及可与其探讨）：\n"@ + comments_text(comments)
        + TALK_TASK@
}

/// What the model is told before a talk about a book.
pub fn build_system_prompt(title: &str, author: &str, tags: &str, comments: &Vec<String>) -> (r: String)
    ensures
        r@ == system_prompt(title@, author@, tags@, strs(comments@)),
{
    "你是一位资深推理小说评论家，正在帮助读者复盘刚读完的《".to_owned().concat(title).concat("》（作者：").concat(
        author,
    ).concat("）。\n这本书的标签是：").concat(tags).concat("。\n以下是其他读者的一些观点（供参考，若用户提及可与其探讨）：\n").concat(
        &comment_list(comments),
    ).concat(TALK_TASK)
}

/// Where a talk stands.
#[derive(Debug)]
pub enum Phase {
    /// The model is to open the talk.
    Opening,
    /// The reader is to say something.
    Listening,
    /// The model is to answer.
    Answering,
    /// The model did not answer: the reader is to say whether to try again.
    Doubting,
    /// The model is to write the review.
    Reviewing,
    /// The reader is to write the review.
    Manual,
    /// The review.
    Reviewed(String),
    /// The talk failed.
    Failed(FinishError),
}

/// A talk about a book.
#[derive(Debug)]
pub struct Dialogue {
    pub history: Vec<Message>,
    pub phase: Phase,
}

/// The role of message `i` of a talk.
pub open spec fn role_at(i: int) -> Seq<char> {
    if i == 0 {
        "system"@
    } else if i % 2 == 1 {
        "user"@
    } else {
        "assistant"@
    }
}

impl Dialogue {
    /// The messages start with the system's; the reader's and the model's then alternate.
    /// The model is only asked behind a message of the reader, and the reader only behind one
    /// of the model.
    pub open spec fn wf(&self) -> bool {
        &&& self.history@.len() >= 2
        &&& forall|i: int|
            0 <= i < self.history@.len() ==> (#[trigger] self.history@[i]).role@ == role_at(i)
        &&& match self.phase {
            Phase::Opening => self.history@.len() == 2,
            Phase::Listening => self.history@.len() % 2 == 1,
            Phase::Answering | Phase::Reviewing => self.history@.len() % 2 == 0,
            Phase::Doubting => self.history@.len() % 2 == 0 && self.history@.len() > 2,
            _ => true,
        }
        &&& self.phase is Answering ==> self.history@.len() > 2
    }

    /// A talk that the model is to open.
    pub fn start(title: &str, author: &str, tags: &str, comments: &Vec<String>) -> (r: Dialogue)
        ensures
            r.wf(),
            r.phase is Opening,
            r.history@.len() == 2,
            r.history@[0].is_plain(
                "system"@,
                system_prompt(title@, author@, tags@, strs(comments@)),
            ),
            r.history@[1].is_plain("user"@, TALK_OPENING@),
    {
        let mut history: Vec<Message> = Vec::new();
        history.push(Message::system(&build_system_prompt(title, author, tags, comments)));
        history.push(Message::user(TALK_OPENING));
        Dialogue { history, phase: Phase::Opening }
    }

    /// Whether the model is to be asked.
    pub fn asks_model(&self) -> (r: bool)
        ensures
            r == (self.phase is Opening || self.phase is Answering || self.phase is Reviewing),
    {
        match self.phase {
            Phase::Opening | Phase::Answering | Phase::Reviewing => true,
            _ => false,
        }
    }

    /// The model answered.
    pub fn answered(&mut self, content: &str)
        requires
            old(self).wf(),
        ensures
            final(self).wf(),
            match old(self).phase {
                Phase::Opening | Phase::Answering => {
                    &&& final(self).phase is Listening
                    &&& final(self).history@.len() == old(self).history@.len() + 1
                    &&& final(self).history@.drop_last() == old(self).history@
                    &&& final(self).history@.last().is_plain("assistant"@, content@)
                },
                Phase::Reviewing => {
                    &&& final(self).phase matches Phase::Reviewed(r) && r@ == content@
                    &&& final(self).history == old(self).history
                },
                _ => *final(self) == *old(self),
            },
    {
        let ghost before = self.history@;
        match self.phase {
            Phase::Opening | Phase::Answering => {
                self.history.push(Message::assistant(content));
                self.phase = Phase::Listening;
                assert(self.history@.drop_last() =~= before);
            },
            Phase::Reviewing => {
                self.phase = Phase::Reviewed(content.to_owned());
            },
            _ => {},
        }
    }

    /// The model did not answer. A talk that did not open, or whose review was not written,
    /// has failed.
    pub fn failed(&mut self, error: &str)
        requires
            old(self).wf(),
        ensures
            final(self).wf(),
            final(self).history == old(self).history,
            match old(self).phase {
                Phase::Answering => final(self).phase is Doubting,
                Phase::Opening | Phase::Reviewing => final(self).phase matches Phase::Failed(
                    FinishError::LlmError(e),
                ) && e@ == error@,
                _ => *final(self) == *old(self),
            },
    {
        match self.phase {
            Phase::Answering => {
                self.phase = Phase::Doubting;
            },
            Phase::Opening | Phase::Reviewing => {
                self.phase = Phase::Failed(FinishError::LlmError(error.to_owned()));
            },
            _ => {},
        }
    }

    /// The reader said whether to try again: if so, what they said last is forgotten.
    pub fn retried(&mut self, again: bool)
        requires
            old(self).wf(),
        ensures
            final(self).wf(),
            old(self).phase is Doubting && again ==> {
                &&& final(self).phase is Listening
                &&& final(self).history@ == old(self).history@.drop_last()
            },
            old(self).phase is Doubting && !again ==> {
                &&& final(self).phase is Manual
                &&& final(self).history == old(self).history
            },
            !(old(self).phase is Doubting) ==> *final(self) == *old(self),
    {
        match self.phase {
            Phase::Doubting => {
                if again {
                    let ghost before = self.history@;
                    let _ = self.history.pop();
                    self.phase = Phase::Listening;
                    assert(self.history@ =~= before.drop_last());
                } else {
                    self.phase = Phase::Manual;
                }
            },
            _ => {},
        }
    }

    /// The reader said something: `/done` and `/finish` ask for the review, `/skip` leaves
    /// it to the reader, and an empty line says nothing.
    pub fn said(&mut self, input: &str)
        requires
            old(self).wf(),
        ensures
            final(self).wf(),
            !(old(self).phase is Listening) ==> *final(self) == *old(self),
            old(self).phase is Listening ==> {
                let line = trim(input@);
                if line == "/done"@ || line == "/finish"@ {
                    &&& final(self).phase is Reviewing
                    &&& final(self).history@.len() == old(self).history@.len() + 1
                    &&& final(self).history@.drop_last() == old(self).history@
                    &&& final(self).history@.last().is_plain("user"@, TALK_REVIEW@)
                } else if line == "/skip"@ {
                    final(self).phase is Manual && final(self).history == old(self).history
                } else if line.len() == 0 {
                    *final(self) == *old(self)
                } else {
                    &&& final(self).phase is Answering
                    &&& final(self).history@.len() == old(self).history@.len() + 1
                    &&& final(self).history@.drop_last() == old(self).history@
                    &&& final(self).history@.last().is_plain("user"@, line)
                }
            },
    {
        let ghost before = self.history@;
        match self.phase {
            Phase::Listening => {
                let line = trimmed(input);
                if same(&line, "/done") || same(&line, "/finish") {
                    self.history.push(Message::user(TALK_REVIEW));
                    self.phase = Phase::Reviewing;
                    assert(self.history@.drop_last() =~= before);
                } else if same(&line, "/skip") {
                    self.phase = Phase::Manual;
                } else if !line.as_str().is_empty() {
                    self.history.push(Message::user(&line));
                    self.phase = Phase::Answering;
                    assert(self.history@.drop_last() =~= before);
                }
            },
            _ => {},
        }
    }
}

// ---- the review ----

/// The lines before the first blank one.
pub open spec fn lines_before_blank(lines: Seq<Seq<char>>, n: nat) -> Seq<Seq<char>>
    decreases lines.len() - n,
{
    if n >= lines.len() || is_blank(lines[n as int]) {
        lines.take(n as int)
    } else {
        lines_before_blank(lines, n + 1)
    }
}

/// The review in the lines that the reader typed, up to the first blank one.
pub fn review_of_lines(lines: &Vec<String>) -> (r: String)
    ensures
        r@ == join(lines_before_blank(strs(lines@), 0), "\n"@),
{
    let ghost all = strs(lines@);
    let mut out: Vec<String> = Vec::new();
    let mut i: usize = 0;
    assert(strs(out@) =~= all.take(0));
    while i < lines.len() && !blank(&lines[i])
        invariant
            i <= lines@.len(),
            all == strs(lines@),
            strs(out@) == all.take(i as int),
            lines_before_blank(all, 0) == lines_before_blank(all, i as nat),
        decreases lines@.len() - i,
    {
        assert(all[i as int] == lines@[i as int]@);
        let line = lines[i].as_str().to_owned();
        proof {
            strs_push(out@, line);
        }
        out.push(line);
        i += 1;
        assert(strs(out@) =~= all.take(i as int));
    }
    proof {
        if i < lines@.len() {
            assert(all[i as int] == lines@[i as int]@);
        }
    }
    joined(&out, "\n")
}

/// The catalogue with the review of a book, and the review among the book's comments; a
/// blank one is not kept.
pub open spec fn reviewed(c: CatalogView, book: int, review: Seq<char>) -> CatalogView {
    if is_blank(review) {
        c
    } else {
        let kept = with_book(c, book, |b: BookView| BookView { my_review: Some(review), ..b });
        if c.last_comment < i64::MAX {
            with_new_comment(
                kept,
                CommentView {
                    book_id: book,
                    id: 0,
                    rating: None,
                    content: review,
                    usefulness: 0,
                    source: "AI助手生成"@,
                    is_mine: 1,
                    source_ref: None,
                },
            )
        } else {
            kept
        }
    }
}

impl Catalog {
    /// Keeps the review of a book, and the review among the book's comments; a blank one is
    /// not kept. Answers whether it was.
    pub fn keep_review(&mut self, book_id: i64, review: &str) -> (r: bool)
        requires
            old(self).wf(),
        ensures
            final(self).wf(),
            final(self)@ == reviewed(old(self)@, book_id as int, review@),
            r == !is_blank(review@),
    {
        if blank(review) {
            return false;
        }
        self.save_review(book_id, review);
        let _ = self.insert_my_comment(book_id, review);
        true
    }
}

/// A review is kept with its book and as a comment of the reader's own; other books keep theirs,
/// and a blank review changes nothing.
pub proof fn a_review_is_kept_with_its_book(c: CatalogView, book: int, review: Seq<char>, k: int)
    requires
        0 <= k < c.books.len(),
    ensures
        ({
            let e = reviewed(c, book, review);
            &&& is_blank(review) ==> e == c
            &&& !is_blank(review) ==> {
                &&& e.books.len() == c.books.len()
                &&& c.books[k].id == book ==> e.books[k] == (BookView {
                    my_review: Some(review),
                    ..c.books[k]
                })
                &&& c.books[k].id != book ==> e.books[k] == c.books[k]
                &&& e.sources == c.sources
                &&& c.last_comment < i64::MAX ==> {
                    &&& e.comments.len() == c.comments.len() + 1
                    &&& e.comments.drop_last() == c.comments
                    &&& e.comments.last().book_id == book
                    &&& e.comments.last().content == review
                    &&& e.comments.last().is_mine == 1
                    &&& e.comments.last().source == "AI助手生成"@
                    &&& e.comments.last().rating is None
                }
            }
        }),
{
    let e = reviewed(c, book, review);
    if !is_blank(review) && c.last_comment < i64::MAX {
        assert(e.comments.drop_last() =~= c.comments);
    }
}

/// Before a talk the model is told the title, the author and the tags of the book, and every
/// comment under its number; or that there is none.
pub proof fn the_model_knows_the_book(
    title: Seq<char>,
    author: Seq<char>,
    tags: Seq<char>,
    comments: Seq<Seq<char>>,
    i: int,
)
    ensures
        has_part(system_prompt(title, author, tags, comments), "《"@ + title + "》（作者："@ + author),
        has_part(system_prompt(title, author, tags, comments), "标签是："@ + tags),
        comments.len() == 0 ==> has_part(
            system_prompt(title, author, tags, comments),
            "（暂无参考短评）"@,
        ),
        0 <= i < comments.len() ==> has_part(
            system_prompt(title, author, tags, comments),
            dec((i + 1) as nat) + ". "@ + comments[i],
        ),
{
    let all = system_prompt(title, author, tags, comments);
    let list = comments_text(comments);
    reveal_strlit("你是一位资深推理小说评论家，正在帮助读者复盘刚读完的《");
    reveal_strlit("你是一位资深推理小说评论家，正在帮助读者复盘刚读完的");
    reveal_strlit("《");
    reveal_strlit("》（作者：");
    reveal_strlit("）。\n这本书的标签是：");
    reveal_strlit("）。\n这本书的");
    reveal_strlit("标签是：");
    let s1 = "你是一位资深推理小说评论家，正在帮助读者复盘刚读完的"@;
    assert("你是一位资深推理小说评论家，正在帮助读者复盘刚读完的《"@ =~= s1 + "《"@);
    let s2 = "）。\n这本书的"@;
    assert("）。\n这本书的标签是："@ =~= s2 + "标签是："@);
    let s3 = "。\n以下是其他读者的一些观点（供参考，若用户提及可与其探讨）：\n"@;
    let who = "《"@ + title + "》（作者："@ + author;
    let kinds = "标签是："@ + tags;
    assert(all =~= s1 + who + (s2 + kinds + s3 + list + TALK_TASK@));
    parts_stand_in_the_whole(s1, who, s2 + kinds + s3 + list + TALK_TASK@);
    assert(all =~= (s1 + who + s2) + kinds + (s3 + list + TALK_TASK@));
    parts_stand_in_the_whole(s1 + who + s2, kinds, s3 + list + TALK_TASK@);
    let pre = s1 + who + s2 + kinds + s3;
    assert(all =~= pre + list + TALK_TASK@);
    parts_stand_in_the_whole(pre, list, TALK_TASK@);
    if 0 <= i < comments.len() {
        let v = numbered(comments);
        let p = v[i];
        let (x, y) = parts_of_a_join(v, "\n"@, i);
        assert(all =~= (pre + x) + p + (y + TALK_TASK@));
        parts_stand_in_the_whole(pre + x, p, y + TALK_TASK@);
    }
}

/// What is typed ends at the first line that is blank.
pub proof fn typing_ends_at_a_blank_line(lines: Seq<Seq<char>>, k: int)
    requires
        0 <= k <= lines.len(),
        forall|i: int| 0 <= i < k ==> !is_blank(#[trigger] lines[i]),
        k < lines.len() ==> is_blank(lines[k]),
    ensures
        lines_before_blank(lines, 0) == lines.take(k),
{
    lines_up_to(lines, 0, k);
}

proof fn lines_up_to(lines: Seq<Seq<char>>, n: nat, k: int)
    requires
        n <= k <= lines.len(),
        forall|i: int| 0 <= i < k ==> !is_blank(#[trigger] lines[i]),
        k < lines.len() ==> is_blank(lines[k]),
    ensures
        lines_before_blank(lines, n) == lines.take(k),
    decreases k - n,
{
    if n < k {
        lines_up_to(lines, n + 1, k);
    }
}

} // verus!
