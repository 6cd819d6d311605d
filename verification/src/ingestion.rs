//! Taking an EPUB into a library.
use vstd::prelude::*;
use vstd::string::*;

use crate::agent::TokenUsage;
use crate::spider::{
    add_new, best_remarks, copy_suggestion, cover_book_url, filter_comments, first_attr,
    first_edition_url, first_link, heading_title, main_edition_url, page_authors, page_comments,
    page_description, parse_douban_book_meta, parse_douban_comments, remarks, tag_names_of, tag_seq,
    union_is_distinct, united, url_of_cover, with_all_new, with_new, ClaspBookDetail, ClaspBookItem,
    ClaspBookSuggestion, ClaspBooksResp, ClaspEdition, ClaspSeriesInfo, Comment, RemarkView,
    SuggestionView,
};
use crate::text::{
    blank, chars_of, clone_opt, is_blank, is_digit, join, joined, lowercase, opt_str, same,
    string_of_range, strs, strs_push, to_lower, trim, trimmed,
};
use crate::utils::{
    count_han, filename_stem, han_are_those_of_the_block, han_count, path_stem, simplified, tidy,
    to_simplified,
};
use crate::json::{json_of_text, write_text};
use crate::markup::selected;
use crate::patterns::first_group;

verus! {

/// Why a book could not be taken in.
#[derive(Debug)]
pub enum IngestionError {
    IoError(String),
    NetworkError(String),
    ParseError(String),
    EpubError(String),
    DbError(String),
    UserAbort,
    Cancelled,
    Other(String),
}

impl IngestionError {
    /// The text that is shown for the error.
    pub open spec fn text(self) -> Seq<char> {
        match self {
            IngestionError::IoError(s) => "IO 错误: "@ + s@,
            IngestionError::NetworkError(s) => "网络错误: "@ + s@,
            IngestionError::ParseError(s) => "HTML 解析错误: "@ + s@,
            IngestionError::EpubError(s) => "EPUB 处理错误: "@ + s@,
            IngestionError::DbError(s) => "数据库错误: "@ + s@,
            IngestionError::UserAbort => "用户取消了操作"@,
            IngestionError::Cancelled => "任务已取消"@,
            IngestionError::Other(s) => s@,
        }
    }

    /// The text that is shown for the error.
    pub fn message(&self) -> (r: String)
        ensures
            r@ == self.text(),
    {
        match self {
            IngestionError::IoError(s) => "IO 错误: ".to_owned().concat(s),
            IngestionError::NetworkError(s) => "网络错误: ".to_owned().concat(s),
            IngestionError::ParseError(s) => "HTML 解析错误: ".to_owned().concat(s),
            IngestionError::EpubError(s) => "EPUB 处理错误: ".to_owned().concat(s),
            IngestionError::DbError(s) => "数据库错误: ".to_owned().concat(s),
            IngestionError::UserAbort => "用户取消了操作".to_owned(),
            IngestionError::Cancelled => "任务已取消".to_owned(),
            IngestionError::Other(s) => s.clone(),
        }
    }
}

// ---- stopping, and telling how far one is ----

/// Whether a long task is to stop.
#[derive(Debug)]
pub struct CancelToken {
    pub cancelled: bool,
}

impl CancelToken {
    pub fn new() -> (r: CancelToken)
        ensures
            !r.cancelled,
    {
        CancelToken { cancelled: false }
    }

    /// Asks to stop.
    pub fn cancel(&mut self)
        ensures
            final(self).cancelled,
    {
        self.cancelled = true;
    }

    pub fn is_cancelled(&self) -> (r: bool)
        ensures
            r == self.cancelled,
    {
        self.cancelled
    }

    /// The error of a task that was asked to stop.
    pub fn check(&self) -> (r: Result<(), IngestionError>)
        ensures
            match r {
                Ok(_) => !self.cancelled,
                Err(e) => self.cancelled && e is Cancelled,
            },
    {
        if self.cancelled {
            Err(IngestionError::Cancelled)
        } else {
            Ok(())
        }
    }
}

/// How far a long task is.
#[derive(Debug)]
pub struct TaskProgress {
    pub phase: String,
    pub current: i64,
    pub total: i64,
    pub message: String,
}

/// How books are imported.
#[derive(Debug, Clone, Copy)]
pub struct IngestOptions {
    /// The book holds several works.
    pub merged: bool,
    /// A single result is taken without a question.
    pub batch: bool,
}

// ---- what an import works on ----

/// An entry of the book site that was chosen for an import.
#[derive(Debug)]
pub struct SuggestionMatch {
    pub id: String,
    pub title: String,
    pub author: String,
    pub tags: Vec<String>,
    pub cover_url: Option<String>,
    pub summary: Option<String>,
    pub douban_url: Option<String>,
}

/// What the analysis of a book found.
#[derive(Debug)]
pub struct EpubAnalysis {
    pub title: String,
    pub author: String,
    pub is_chinese_title: bool,
    pub has_epub_cover: bool,
    /// The mended copy of the book, where it had to be mended.
    pub effective_path: Option<String>,
    pub suggestion: Option<ClaspBookSuggestion>,
    pub search_results: usize,
}

/// How many results a page of a search holds.
pub const GUI_PAGE_SIZE: i64 = 5;

/// A page of a search.
#[derive(Debug)]
pub struct ClaspSearchPage {
    pub items: Vec<ClaspBookSuggestion>,
    pub total_pages: i64,
    pub total: i64,
    /// Nothing matched exactly.
    pub fuzzy: bool,
}

/// The cover of an edition.
#[derive(Debug)]
pub struct EditionCoverMeta {
    pub label: String,
    pub url: String,
    pub path: Option<String>,
}

/// A source of a book that is not recorded yet.
#[derive(Debug)]
pub struct PendingSource {
    /// The id of an entry, or the address of a page.
    pub ref_key: String,
    pub title: Option<String>,
    pub author: Option<String>,
    pub cover_url: Option<String>,
    pub cover_path: Option<String>,
    pub summary: Option<String>,
    pub tags: Option<Vec<String>>,
    pub editions_json: Option<String>,
    pub douban_url: Option<String>,
    pub series: Option<(String, Option<i64>)>,
    pub comments: Vec<Comment>,
}

/// A source of a book that is not recorded yet, by its characters.
pub struct PendingView {
    pub ref_key: Seq<char>,
    pub title: Option<Seq<char>>,
    pub author: Option<Seq<char>>,
    pub cover_url: Option<Seq<char>>,
    pub cover_path: Option<Seq<char>>,
    pub summary: Option<Seq<char>>,
    pub tags: Option<Seq<Seq<char>>>,
    pub editions: Option<Seq<char>>,
    pub series: Option<(Seq<char>, Option<i64>)>,
    pub comments: Seq<RemarkView>,
}

impl View for PendingSource {
    type V = PendingView;

    open spec fn view(&self) -> PendingView {
        PendingView {
            ref_key: self.ref_key@,
            title: opt_str(self.title),
            author: opt_str(self.author),
            cover_url: opt_str(self.cover_url),
            cover_path: opt_str(self.cover_path),
            summary: opt_str(self.summary),
            tags: match self.tags {
                Some(t) => Some(strs(t@)),
                None => None,
            },
            editions: opt_str(self.editions_json),
            series: match self.series {
                Some(p) => Some((p.0@, p.1)),
                None => None,
            },
            comments: remarks(self.comments@),
        }
    }
}

/// The views of a list of sources.
pub open spec fn pending_views(v: Seq<PendingSource>) -> Seq<PendingView> {
    v.map_values(|s: PendingSource| s@)
}

impl PendingSource {
    /// Whether nothing is known but the reference.
    pub open spec fn is_bare(self, ref_key: Seq<char>) -> bool {
        &&& self.ref_key@ == ref_key
        &&& self.title is None
        &&& self.author is None
        &&& self.cover_url is None
        &&& self.cover_path is None
        &&& self.summary is None
        &&& self.tags is None
        &&& self.editions_json is None
        &&& self.douban_url is None
        &&& self.series is None
        &&& self.comments@.len() == 0
    }

    /// A source of which nothing is known but the reference.
    pub fn new(ref_key: &str) -> (r: PendingSource)
        ensures
            r.is_bare(ref_key@),
    {
        PendingSource {
            ref_key: ref_key.to_owned(),
            title: None,
            author: None,
            cover_url: None,
            cover_path: None,
            summary: None,
            tags: None,
            editions_json: None,
            douban_url: None,
            series: None,
            comments: Vec::new(),
        }
    }
}

/// A book that is ready to be recorded.
#[derive(Debug)]
pub struct PreparedImport {
    /// The book to copy into the library.
    pub file_path: String,
    /// The book as it was given.
    pub original_path: String,
    pub title: String,
    pub author: String,
    pub tags: Vec<String>,
    pub description: String,
    pub series_name: Option<String>,
    pub series_order: Option<i64>,
    pub clasp_ids: Vec<String>,
    pub douban_urls: Vec<String>,
    /// The name of the copy in the library.
    pub library_file: String,
    pub cover_path: Option<String>,
    /// A cover that the user chose.
    pub cover_override: Option<String>,
    pub sources_clasp: Vec<PendingSource>,
    pub sources_douban: Vec<PendingSource>,
    pub llm_usage: Vec<(String, TokenUsage)>,
    pub fusion_model: Option<String>,
    pub fusion_error: Option<String>,
}

// ---- searching ----

/// The suggestions that the items of an answer amount to.
pub open spec fn suggestions_of(items: Seq<ClaspBookItem>, v: Seq<
    ClaspBookSuggestion,
>) -> bool {
    v.len() == items.len() && forall|i: int|
        0 <= i < v.len() ==> {
            let s = #[trigger] v[i];
            let it = items[i];
            &&& s.title@ == trim(it.title@)
            &&& s.author_name@ == it.author_text()
            &&& s.id == it.id
            &&& strs(s.tags@) == tidy(tag_seq(it.tags@))
            &&& s.cover_url == it.cover_url
            &&& opt_str(s.summary) == (match it.summary_no_spoiler {
                Some(t) => if is_blank(t@) {
                    None
                } else {
                    Some(t@)
                },
                None => None,
            })
            &&& opt_str(s.douban_url) == cover_book_url(opt_str(it.cover_url))
        }
}

/// The page of a search that an answer gives; there is at least one page.
pub fn search_page(resp: &ClaspBooksResp) -> (r: ClaspSearchPage)
    ensures
        suggestions_of(resp.items@, r.items@),
        r.total_pages == (match resp.pagination {
            Some(p) => if p.total_pages > 1 {
                p.total_pages
            } else {
                1
            },
            None => 1,
        }),
        r.total == (match resp.pagination {
            Some(p) => p.total,
            None => 0,
        }),
        r.fuzzy == (opt_str(resp.search_mode) == Some("fuzzy"@)),
{
    let mut items: Vec<ClaspBookSuggestion> = Vec::new();
    let mut i: usize = 0;
    while i < resp.items.len()
        invariant
            i <= resp.items@.len(),
            items@.len() == i,
            suggestions_of(resp.items@.take(i as int), items@),
        decreases resp.items@.len() - i,
    {
        let s = resp.items[i].suggestion();
        let ghost was = items@;
        items.push(s);
        i += 1;
        proof {
            let now = resp.items@.take(i as int);
            assert forall|k: int| 0 <= k < items@.len() implies {
                let s = #[trigger] items@[k];
                let it = now[k];
                &&& s.title@ == trim(it.title@)
                &&& s.author_name@ == it.author_text()
                &&& s.id == it.id
                &&& strs(s.tags@) == tidy(tag_seq(it.tags@))
                &&& s.cover_url == it.cover_url
                &&& opt_str(s.summary) == (match it.summary_no_spoiler {
                    Some(t) => if is_blank(t@) {
                        None
                    } else {
                        Some(t@)
                    },
                    None => None,
                })
                &&& opt_str(s.douban_url) == cover_book_url(opt_str(it.cover_url))
            } by {
                if k < i - 1 {
                    assert(items@[k] == was[k]);
                    assert(now[k] == resp.items@.take(i - 1)[k]);
                }
            }
        }
    }
    assert(resp.items@.take(resp.items@.len() as int) =~= resp.items@);
    let total_pages: i64 = match &resp.pagination {
        Some(p) => if p.total_pages > 1 {
            p.total_pages
        } else {
            1
        },
        None => 1,
    };
    let total: i64 = match &resp.pagination {
        Some(p) => p.total,
        None => 0,
    };
    let fuzzy = match &resp.search_mode {
        Some(m) => same(m, "fuzzy"),
        None => false,
    };
    ClaspSearchPage { items, total_pages, total, fuzzy }
}

/// What a search for one word found: nothing where it failed or nothing matched exactly.
pub fn found_by_search(page: Option<ClaspSearchPage>) -> (r: (Vec<ClaspBookSuggestion>, i64))
    ensures
        match page {
            Some(p) => r.1 == p.total && (if p.fuzzy {
                r.0@.len() == 0
            } else {
                r.0 == p.items
            }),
            None => r.0@.len() == 0 && r.1 == 0,
        },
{
    match page {
        Some(p) => if p.fuzzy {
            (Vec::new(), p.total)
        } else {
            (p.items, p.total)
        },
        None => (Vec::new(), 0),
    }
}

/// What the searches for a title and, where there is one, another word found: the first that
/// found anything counts.
pub fn search_candidates(
    first: (Vec<ClaspBookSuggestion>, i64),
    second: Option<(Vec<ClaspBookSuggestion>, i64)>,
) -> (r: (Vec<ClaspBookSuggestion>, i64))
    ensures
        if first.0@.len() > 0 {
            r == first
        } else {
            match second {
                Some(s) => r == s,
                None => r.0@.len() == 0 && r.1 == 0,
            }
        },
{
    if first.0.len() > 0 {
        first
    } else {
        match second {
            Some(s) => s,
            None => (Vec::new(), 0),
        }
    }
}

/// A title as titles are compared: without white space at its ends, in simplified
/// characters and small letters.
pub open spec fn title_key(title: Seq<char>) -> Seq<char> {
    lowercase(simplified(trim(title)))
}

fn key_of_title(title: &str) -> (r: String)
    ensures
        r@ == title_key(title@),
{
    to_lower(&to_simplified(&trimmed(title)))
}

/// Where the first suggestion from `i` on with the title stands.
pub open spec fn titled_from(items: Seq<ClaspBookSuggestion>, key: Seq<char>, i: int) -> Option<int>
    decreases items.len() - i,
{
    if i < 0 || i >= items.len() {
        None
    } else if title_key(items[i].title@) == key {
        Some(i)
    } else {
        titled_from(items, key, i + 1)
    }
}

/// Which suggestion is taken without a question: the only one, else the first with the title.
pub open spec fn silent_match(items: Seq<ClaspBookSuggestion>, title: Seq<char>) -> Option<int> {
    if items.len() == 1 {
        Some(0)
    } else {
        titled_from(items, title_key(title), 0)
    }
}

/// The suggestion that is taken without a question: the only one, else the first with the
/// title.
pub fn pick_silent_match(items: &Vec<ClaspBookSuggestion>, title: &str) -> (r: Option<
    ClaspBookSuggestion,
>)
    ensures
        match r {
            Some(s) => silent_match(items@, title@) matches Some(i) && 0 <= i < items@.len() && s@
                == items@[i]@,
            None => silent_match(items@, title@) is None,
        },
{
    if items.len() == 1 {
        return Some(copy_suggestion(&items[0]));
    }
    let key = key_of_title(title);
    let mut i: usize = 0;
    while i < items.len()
        invariant
            i <= items@.len(),
            items@.len() != 1,
            key@ == title_key(title@),
            titled_from(items@, key@, 0) == titled_from(items@, key@, i as int),
        decreases items@.len() - i,
    {
        if same(&key_of_title(&items[i].title), &key) {
            return Some(copy_suggestion(&items[i]));
        }
        i += 1;
    }
    None
}

/// A title in simplified characters, where it has Chinese ones.
pub open spec fn plain_title(title: Seq<char>) -> Seq<char> {
    if han_count(title) > 0 {
        simplified(title)
    } else {
        title
    }
}

/// A title in simplified characters, where it has Chinese ones.
pub fn simplify_title(title: &str) -> (r: String)
    ensures
        r@ == plain_title(title@),
{
    if count_han(title) > 0 {
        to_simplified(title)
    } else {
        title.to_owned()
    }
}

/// A text that a book says of itself: without white space around it, and none where it is
/// blank.
pub open spec fn own_text(raw: Option<Seq<char>>) -> Option<Seq<char>> {
    match raw {
        Some(t) => if is_blank(t) {
            None
        } else {
            Some(trim(t))
        },
        None => None,
    }
}

/// A text that a book says of itself: without white space around it, and none where it is
/// blank.
pub fn epub_text(raw: &Option<String>) -> (r: Option<String>)
    ensures
        opt_str(r) == own_text(opt_str(*raw)),
{
    match raw {
        Some(t) => if blank(t) {
            None
        } else {
            Some(trimmed(t))
        },
        None => None,
    }
}

/// The title of a book before it is looked up: its own, else the name of its file.
pub open spec fn own_title(raw: Option<Seq<char>>, path: Seq<char>) -> Seq<char> {
    plain_title(
        match raw {
            Some(t) => if is_blank(t) {
                path_stem(path)
            } else {
                t
            },
            None => path_stem(path),
        },
    )
}

/// The title of a book before it is looked up: its own, else the name of its file.
pub fn title_of_epub(raw: &Option<String>, path: &str) -> (r: String)
    ensures
        r@ == own_title(opt_str(*raw), path@),
{
    let t = match raw {
        Some(t) => if blank(t) {
            filename_stem(path)
        } else {
            t.as_str().to_owned()
        },
        None => filename_stem(path),
    };
    simplify_title(&t)
}

/// What is looked up: the title, and the name of the file where it is another.
pub fn search_words(title: &str, path: &str) -> (r: Vec<String>)
    ensures
        strs(r@) == (if path_stem(path@).len() > 0 && path_stem(path@) != title@ {
            seq![title@, path_stem(path@)]
        } else {
            seq![title@]
        }),
{
    let stem = filename_stem(path);
    let mut v: Vec<String> = Vec::new();
    v.push(title.to_owned());
    assert(strs(v@) =~= seq![title@]);
    if !stem.as_str().is_empty() && !same(&stem, title) {
        proof {
            strs_push(v@, stem);
        }
        v.push(stem);
        assert(strs(v@) =~= seq![title@, path_stem(path@)]);
    }
    v
}

/// The title of a book once it is looked up: that of the suggestion, else its own.
pub open spec fn looked_up_title(own: Seq<char>, s: Option<SuggestionView>) -> Seq<char> {
    match s {
        Some(s) => if is_blank(s.title) {
            own
        } else {
            plain_title(trim(s.title))
        },
        None => own,
    }
}

/// The author of a book once it is looked up: that of the suggestion, else its own.
pub open spec fn looked_up_author(own: Option<Seq<char>>, s: Option<SuggestionView>) -> Seq<char> {
    let mine = match own {
        Some(a) => a,
        None => Seq::empty(),
    };
    match s {
        Some(s) => if is_blank(s.author_name) {
            mine
        } else {
            trim(s.author_name)
        },
        None => mine,
    }
}

/// The suggestion that is taken, by its characters.
pub open spec fn taken_view(items: Seq<ClaspBookSuggestion>, title: Seq<char>) -> Option<
    SuggestionView,
> {
    match silent_match(items, title) {
        Some(i) => Some(items[i]@),
        None => None,
    }
}

/// Whether `r` is the title `t` in simplified characters, where it has Chinese ones, and else
/// the title itself.
pub open spec fn in_simplified(t: Seq<char>, r: Seq<char>) -> bool {
    if exists|i: int| 0 <= i < t.len() && '\u{4e00}' <= #[trigger] t[i] && t[i] <= '\u{9fff}' {
        r == simplified(t)
    } else {
        r == t
    }
}

/// What the analysis of a book finds: its title and its author, from the suggestion that is
/// taken or from the book itself.
pub fn analyse(
    path: &str,
    mended: Option<String>,
    raw_title: &Option<String>,
    raw_author: &Option<String>,
    has_epub_cover: bool,
    items: &Vec<ClaspBookSuggestion>,
    total: i64,
) -> (r: EpubAnalysis)
    ensures
        ({
            let own = own_title(opt_str(*raw_title), path@);
            let taken = taken_view(items@, own);
            &&& r.title@ == looked_up_title(own, taken)
            &&& r.author@ == looked_up_author(opt_str(*raw_author), taken)
            &&& r.is_chinese_title == (han_count(r.title@) > 0)
            &&& r.has_epub_cover == has_epub_cover
            &&& r.effective_path == mended
            &&& taken == (match r.suggestion {
                Some(s) => Some(s@),
                None => None,
            })
            &&& total > usize::MAX || r.search_results == (if total > 0 {
                total as int
            } else {
                items@.len() as int
            })
        }),
        match r.suggestion {
            Some(s) => items@.len() == 1 ==> s@ == items@[0]@,
            None => items@.len() != 1,
        },
        (match r.suggestion {
            Some(s) => !is_blank(s.title@),
            None => false,
        }) ==> in_simplified(trim(r.suggestion->0.title@), r.title@),
        (match r.suggestion {
            Some(s) => is_blank(s.title@),
            None => true,
        }) ==> (match *raw_title {
            Some(t) => in_simplified(
                if is_blank(t@) {
                    path_stem(path@)
                } else {
                    t@
                },
                r.title@,
            ),
            None => in_simplified(path_stem(path@), r.title@),
        }),
        (match r.suggestion {
            Some(s) => !is_blank(s.author_name@),
            None => false,
        }) ==> r.author@ == trim(r.suggestion->0.author_name@),
        (match r.suggestion {
            Some(s) => is_blank(s.author_name@),
            None => true,
        }) ==> r.author@ == (match *raw_author {
            Some(a) => a@,
            None => Seq::empty(),
        }),
{
    proof {
        let own = own_title(opt_str(*raw_title), path@);
        found_title_counts(items@, opt_str(*raw_title), opt_str(*raw_author), path@);
        only_or_same_titled(items@, own);
    }
    let own = title_of_epub(raw_title, path);
    let suggestion = pick_silent_match(items, &own);
    let title = match &suggestion {
        Some(s) => if blank(&s.title) {
            own
        } else {
            simplify_title(&trimmed(&s.title))
        },
        None => own,
    };
    let mine = match clone_opt(raw_author) {
        Some(a) => a,
        None => String::new(),
    };
    let author = match &suggestion {
        Some(s) => if blank(&s.author_name) {
            mine
        } else {
            trimmed(&s.author_name)
        },
        None => mine,
    };
    let is_chinese_title = count_han(&title) > 0;
    let search_results: usize = if total > 0 {
        total as usize
    } else {
        items.len()
    };
    EpubAnalysis {
        title,
        author,
        is_chinese_title,
        has_epub_cover,
        effective_path: mended,
        suggestion,
        search_results,
    }
}

// ---- sources ----

/// The parts with `p` behind them, where it is not blank and not among them.
pub open spec fn with_part(parts: Seq<Seq<char>>, p: Option<Seq<char>>) -> Seq<Seq<char>> {
    match p {
        Some(t) => if is_blank(t) {
            parts
        } else {
            with_new(parts, trim(t))
        },
        None => parts,
    }
}

fn add_part(parts: &mut Vec<String>, p: &Option<String>)
    ensures
        strs(final(parts)@) == with_part(strs(old(parts)@), opt_str(*p)),
{
    match p {
        Some(t) => {
            let t = trimmed(t);
            if !t.as_str().is_empty() {
                add_new(parts, &t);
            }
        },
        None => {},
    }
}

/// The digits that `s` begins with.
pub open spec fn leading_digits(s: Seq<char>) -> Seq<char>
    decreases s.len(),
{
    if s.len() > 0 && is_digit(s[0]) {
        seq![s[0]] + leading_digits(s.drop_first())
    } else {
        Seq::empty()
    }
}

fn digits_at_start(s: &str) -> (r: String)
    ensures
        r@ == leading_digits(s@),
{
    let v = chars_of(s);
    let mut n: usize = 0;
    assert(v@.skip(0) =~= v@);
    assert(v@.take(0) + leading_digits(v@) =~= leading_digits(v@));
    while n < v.len() && '0' <= v[n] && v[n] <= '9'
        invariant
            n <= v@.len(),
            leading_digits(v@) == v@.take(n as int) + leading_digits(v@.skip(n as int)),
        decreases v@.len() - n,
    {
        let ghost rest = v@.skip(n as int);
        assert(rest.drop_first() =~= v@.skip(n + 1));
        assert(v@.take(n as int) + (seq![rest[0]] + leading_digits(rest.drop_first()))
            =~= v@.take(n + 1) + leading_digits(v@.skip(n + 1)));
        n += 1;
    }
    assert(leading_digits(v@) =~= v@.subrange(0, n as int));
    string_of_range(&v, 0, n)
}

/// The year of a date, where it begins with one.
pub open spec fn year_of(date: Option<Seq<char>>) -> Option<Seq<char>> {
    match date {
        Some(d) => if leading_digits(d).len() == 4 {
            Some(leading_digits(d))
        } else {
            None
        },
        None => None,
    }
}

fn find_year(date: &Option<String>) -> (r: Option<String>)
    ensures
        opt_str(r) == year_of(opt_str(*date)),
{
    match date {
        Some(d) => {
            let y = digits_at_start(d);
            if chars_of(&y).len() == 4 {
                Some(y)
            } else {
                None
            }
        },
        None => None,
    }
}

/// A text without white space at its ends, where there is one.
pub open spec fn trim_opt(o: Option<Seq<char>>) -> Option<Seq<char>> {
    match o {
        Some(t) => Some(trim(t)),
        None => None,
    }
}

/// The parts of the label of an edition.
pub open spec fn label_parts(e: ClaspEdition) -> Seq<Seq<char>> {
    let publisher = opt_str(e.publisher);
    let p0 = with_part(Seq::empty(), publisher);
    let p1 = match e.imprint {
        Some(i) => if trim_opt(opt_str(i.name)) != trim_opt(publisher) {
            with_part(p0, opt_str(i.name))
        } else {
            p0
        },
        None => p0,
    };
    let p2 = with_part(p1, year_of(opt_str(e.published_at)));
    with_part(
        with_part(with_part(p2, opt_str(e.binding)), opt_str(e.language)),
        opt_str(e.translator),
    )
}

fn same_trimmed(a: &Option<String>, b: &Option<String>) -> (r: bool)
    ensures
        r == (trim_opt(opt_str(*a)) == trim_opt(opt_str(*b))),
{
    match (a, b) {
        (Some(x), Some(y)) => same(&trimmed(x), &trimmed(y)),
        (None, None) => true,
        _ => false,
    }
}

/// The label of an edition: its publisher, imprint, year, binding, language and translator,
/// those that are known and each once.
pub fn edition_label(e: &ClaspEdition) -> (r: String)
    ensures
        r@ == join(label_parts(*e), " · "@),
{
    let mut parts: Vec<String> = Vec::new();
    assert(strs(parts@) =~= Seq::<Seq<char>>::empty());
    add_part(&mut parts, &e.publisher);
    match &e.imprint {
        Some(i) => {
            if !same_trimmed(&i.name, &e.publisher) {
                add_part(&mut parts, &i.name);
            }
        },
        None => {},
    }
    add_part(&mut parts, &find_year(&e.published_at));
    add_part(&mut parts, &e.binding);
    add_part(&mut parts, &e.language);
    add_part(&mut parts, &e.translator);
    joined(&parts, " · ")
}

/// The cover of an edition: its label and its address.
pub struct CoverView {
    pub label: Seq<char>,
    pub url: Seq<char>,
}

/// The views of the covers of editions.
pub open spec fn cover_views(v: Seq<EditionCoverMeta>) -> Seq<CoverView> {
    v.map_values(|e: EditionCoverMeta| CoverView { label: e.label@, url: e.url@ })
}

/// Whether one of the covers has the address.
pub open spec fn has_cover_url(v: Seq<CoverView>, url: Seq<char>) -> bool {
    exists|i: int| 0 <= i < v.len() && (#[trigger] v[i]).url == url
}

/// The covers of the editions that have one, each address once.
pub open spec fn edition_covers(eds: Seq<ClaspEdition>) -> Seq<CoverView>
    decreases eds.len(),
{
    if eds.len() == 0 {
        Seq::empty()
    } else {
        let before = edition_covers(eds.drop_last());
        match eds.last().cover_url {
            Some(u) => if is_blank(u@) || has_cover_url(before, trim(u@)) {
                before
            } else {
                before.push(
                    CoverView { label: join(label_parts(eds.last()), " · "@), url: trim(u@) },
                )
            },
            None => before,
        }
    }
}

fn cover_listed(v: &Vec<EditionCoverMeta>, url: &str) -> (r: bool)
    ensures
        r == has_cover_url(cover_views(v@), url@),
{
    let ghost all = cover_views(v@);
    let mut i: usize = 0;
    while i < v.len()
        invariant
            i <= v@.len(),
            all == cover_views(v@),
            forall|j: int| 0 <= j < i ==> (#[trigger] all[j]).url != url@,
        decreases v@.len() - i,
    {
        assert(all[i as int].url == v@[i as int].url@);
        if same(&v[i].url, url) {
            return true;
        }
        i += 1;
    }
    false
}

/// The covers of the editions that have one, each address once; none is kept as a file.
pub fn list_edition_covers(eds: &Vec<ClaspEdition>) -> (r: Vec<EditionCoverMeta>)
    ensures
        cover_views(r@) == edition_covers(eds@),
        forall|i: int| 0 <= i < r@.len() ==> (#[trigger] r@[i]).path is None,
{
    let mut out: Vec<EditionCoverMeta> = Vec::new();
    let mut i: usize = 0;
    assert(eds@.take(0) =~= Seq::<ClaspEdition>::empty());
    assert(cover_views(out@) =~= edition_covers(eds@.take(0)));
    while i < eds.len()
        invariant
            i <= eds@.len(),
            cover_views(out@) == edition_covers(eds@.take(i as int)),
            forall|k: int| 0 <= k < out@.len() ==> (#[trigger] out@[k]).path is None,
        decreases eds@.len() - i,
    {
        assert(eds@.take(i + 1).drop_last() =~= eds@.take(i as int));
        assert(eds@.take(i + 1).last() == eds@[i as int]);
        match &eds[i].cover_url {
            Some(u) => {
                let url = trimmed(u);
                if !url.as_str().is_empty() && !cover_listed(&out, &url) {
                    let label = edition_label(&eds[i]);
                    let ghost was = out@;
                    let e = EditionCoverMeta { label, url, path: None };
                    out.push(e);
                    assert(cover_views(out@) =~= cover_views(was).push(
                        (CoverView { label: e.label@, url: e.url@ }),
                    ));
                }
            },
            None => {},
        }
        i += 1;
    }
    assert(eds@.take(eds@.len() as int) =~= eds@);
    out
}

/// The JSON text of the cover of an edition.
pub open spec fn json_of_cover(c: CoverView) -> Seq<char> {
    "{\"label\":"@ + json_of_text(c.label) + ",\"url\":"@
        + json_of_text(c.url) + ",\"path\":null}"@
}

/// The JSON text of the covers of editions.
pub open spec fn json_of_covers(v: Seq<CoverView>) -> Seq<char> {
    "["@ + join(v.map_values(|c: CoverView| json_of_cover(c)), ","@) + "]"@
}

/// The JSON text of the covers of editions.
pub fn write_covers(v: &Vec<EditionCoverMeta>) -> (r: String)
    ensures
        r@ == json_of_covers(cover_views(v@)),
{
    let ghost all = cover_views(v@);
    let ghost f = |c: CoverView| json_of_cover(c);
    let mut parts: Vec<String> = Vec::new();
    let mut i: usize = 0;
    assert(strs(parts@) =~= all.take(0).map_values(f));
    while i < v.len()
        invariant
            i <= v@.len(),
            all == cover_views(v@),
            f == |c: CoverView| json_of_cover(c),
            strs(parts@) == all.take(i as int).map_values(f),
        decreases v@.len() - i,
    {
        let part = "{\"label\":".to_owned().concat(&write_text(&v[i].label)).concat(
            ",\"url\":",
        ).concat(&write_text(&v[i].url)).concat(",\"path\":null}");
        assert(part@ == json_of_cover(all[i as int]));
        proof {
            strs_push(parts@, part);
        }
        parts.push(part);
        i += 1;
        assert(all.take(i as int).map_values(f) =~= all.take(i - 1).map_values(f).push(
            f(all[i - 1]),
        ));
    }
    assert(all.take(v@.len() as int) =~= all);
    "[".to_owned().concat(&joined(&parts, ",")).concat("]")
}

/// A text, where it is not blank.
pub open spec fn filled(o: Option<Seq<char>>) -> Option<Seq<char>> {
    match o {
        Some(t) => if is_blank(t) {
            None
        } else {
            Some(t)
        },
        None => None,
    }
}

/// A text, where it is not blank.
pub fn keep_filled(o: &Option<String>) -> (r: Option<String>)
    ensures
        opt_str(r) == filled(opt_str(*o)),
{
    match o {
        Some(t) => if blank(t) {
            None
        } else {
            Some(t.as_str().to_owned())
        },
        None => None,
    }
}

/// What the details and the comments of an entry make of it as a source.
pub open spec fn is_clasp_source(
    r: PendingSource,
    id: Seq<char>,
    detail: Option<ClaspBookDetail>,
    reviews: Option<Seq<RemarkView>>,
) -> bool {
    match detail {
        None => r.is_bare(id),
        Some(d) => {
            &&& r.ref_key@ == id
            &&& opt_str(r.title) == filled(opt_str(d.title))
            &&& opt_str(r.author) == (match d.author {
                Some(a) => if is_blank(a.name@) {
                    None
                } else {
                    Some(trim(a.name@))
                },
                None => None,
            })
            &&& opt_str(r.summary) == filled(opt_str(d.summary_no_spoiler))
            &&& opt_str(r.cover_url) == opt_str(d.cover_url)
            &&& r.cover_path is None
            &&& match r.tags {
                Some(v) => v@.len() > 0 && strs(v@) == tidy(tag_seq(d.tags@)),
                None => tidy(tag_seq(d.tags@)).len() == 0,
            }
            &&& opt_str(r.editions_json) == (if edition_covers(d.editions@).len() > 0 {
                Some(json_of_covers(edition_covers(d.editions@)))
            } else {
                None
            })
            &&& opt_str(r.douban_url) == (match main_edition_url(d.editions@) {
                Some(u) => Some(u),
                None => match first_edition_url(d.editions@) {
                    Some(u) => Some(u),
                    None => cover_book_url(opt_str(d.cover_url)),
                },
            })
            &&& match series_of(d.series) {
                Some(s) => r.series is Some && (r.series->0).0@ == s.0 && (r.series->0).1 == s.1,
                None => r.series is None,
            }
            &&& remarks(r.comments@) == (match reviews {
                Some(v) => best_remarks(v),
                None => Seq::empty(),
            })
        },
    }
}

/// The series of an entry, where it has a name.
pub open spec fn series_of(s: Option<ClaspSeriesInfo>) -> Option<
    (Seq<char>, Option<i64>),
> {
    match s {
        Some(i) => match i.name {
            Some(n) => if is_blank(n@) {
                None
            } else {
                Some((trim(n@), i.order))
            },
            None => None,
        },
        None => None,
    }
}

/// The series of an entry, where it has a name.
pub fn find_series(s: &Option<ClaspSeriesInfo>) -> (r: Option<(String, Option<i64>)>)
    ensures
        match series_of(*s) {
            Some(v) => r is Some && (r->0).0@ == v.0 && (r->0).1 == v.1,
            None => r is None,
        },
{
    match s {
        Some(i) => match &i.name {
            Some(n) => {
                let name = trimmed(n);
                if name.as_str().is_empty() {
                    None
                } else {
                    Some((name, i.order))
                }
            },
            None => None,
        },
        None => None,
    }
}

/// What the details of an entry and its comments, where they could be had, make of it as a
/// source.
pub fn clasp_source(id: &str, detail: &Option<ClaspBookDetail>, reviews: Option<Vec<Comment>>) -> (r:
    PendingSource)
    ensures
        is_clasp_source(
            r,
            id@,
            *detail,
            match reviews {
                Some(v) => Some(remarks(v@)),
                None => None,
            },
        ),
{
    match detail {
        None => PendingSource::new(id),
        Some(d) => {
            let author = match &d.author {
                Some(a) => {
                    let name = trimmed(&a.name);
                    if name.as_str().is_empty() {
                        None
                    } else {
                        Some(name)
                    }
                },
                None => None,
            };
            let covers = list_edition_covers(&d.editions);
            assert(cover_views(covers@).len() == covers@.len());
            let editions_json = if covers.len() > 0 {
                Some(write_covers(&covers))
            } else {
                None
            };
            let douban_url = match d.primary_douban_url() {
                Some(u) => Some(u),
                None => url_of_cover(&d.cover_url),
            };
            let comments = match reviews {
                Some(v) => filter_comments(v),
                None => {
                    let none: Vec<Comment> = Vec::new();
                    assert(remarks(none@) =~= Seq::<RemarkView>::empty());
                    none
                },
            };
            let names = tag_names_of(&d.tags);
            assert(strs(names@).len() == names@.len());
            let tags = if names.len() > 0 {
                Some(names)
            } else {
                None
            };
            PendingSource {
                ref_key: id.to_owned(),
                title: keep_filled(&d.title),
                author,
                cover_url: clone_opt(&d.cover_url),
                cover_path: None,
                summary: keep_filled(&d.summary_no_spoiler),
                tags,
                editions_json,
                douban_url,
                series: find_series(&d.series),
                comments,
            }
        },
    }
}

/// The comments of a page, those that are kept.
pub fn comments_of_page(html: &str) -> (r: Vec<Comment>)
    ensures
        remarks(r@) == best_remarks(page_comments(html@)),
{
    filter_comments(parse_douban_comments(html))
}

/// What a page of the review site and the page of its comments, where they could be had,
/// make of it as a source.
pub fn douban_source(url: &str, page: Option<&str>, comments_page: Option<&str>) -> (r: PendingSource)
    ensures
        match page {
            None => r.is_bare(url@),
            Some(html) => {
                &&& r.ref_key@ == url@
                &&& opt_str(r.summary) == page_description(html@)
                &&& opt_str(r.title) == (match first_attr(
                    selected(
                        html@,
                        "meta[property=\"og:title\"]"@,
                        "content"@,
                    ),
                ) {
                    Some(t) => Some(t),
                    None => heading_title(
                        selected(html@, "title"@, ""@),
                    ),
                })
                &&& opt_str(r.author) == (if page_authors(html@).len() > 0 {
                    Some(join(page_authors(html@), "、"@))
                } else {
                    None
                })
                &&& opt_str(r.cover_url) == (match first_link(
                    selected(
                        html@,
                        "meta[property=\"og:image\"]"@,
                        "content"@,
                    ),
                ) {
                    Some(u) => Some(u),
                    None => first_link(
                        selected(html@, "div#mainpic img"@, "src"@),
                    ),
                })
                &&& r.cover_path is None
                &&& r.tags is None
                &&& r.editions_json is None
                &&& r.douban_url is None
                &&& r.series is None
                &&& remarks(r.comments@) == (match comments_page {
                    Some(c) => best_remarks(page_comments(c@)),
                    None => Seq::empty(),
                })
            },
        },
{
    match page {
        None => PendingSource::new(url),
        Some(html) => {
            let meta = parse_douban_book_meta(html);
            let comments = match comments_page {
                Some(c) => comments_of_page(c),
                None => {
                    let none: Vec<Comment> = Vec::new();
                    assert(remarks(none@) =~= Seq::<RemarkView>::empty());
                    none
                },
            };
            PendingSource {
                ref_key: url.to_owned(),
                title: meta.title,
                author: meta.author,
                cover_url: meta.cover_url,
                cover_path: None,
                summary: meta.summary,
                tags: None,
                editions_json: None,
                douban_url: None,
                series: None,
                comments,
            }
        },
    }
}

// ---- what sources say of a book ----

/// The series and volumes that sources name, by their characters.
pub open spec fn pair_views(v: Seq<(String, Option<i64>)>) -> Seq<(Seq<char>, Option<i64>)> {
    v.map_values(|p: (String, Option<i64>)| (p.0@, p.1))
}

/// The first volume that is known.
pub open spec fn first_known(pairs: Seq<(Seq<char>, Option<i64>)>) -> Option<i64>
    decreases pairs.len(),
{
    if pairs.len() == 0 {
        None
    } else if pairs[0].1 is Some {
        pairs[0].1
    } else {
        first_known(pairs.drop_first())
    }
}

/// Whether two sources name different volumes.
pub open spec fn volumes_differ(pairs: Seq<(Seq<char>, Option<i64>)>) -> bool {
    exists|i: int|
        0 <= i < pairs.len() && (#[trigger] pairs[i]).1 is Some && pairs[i].1 != first_known(pairs)
}

/// Whether all sources name one series.
pub open spec fn one_series(pairs: Seq<(Seq<char>, Option<i64>)>) -> bool {
    forall|i: int| 0 <= i < pairs.len() ==> (#[trigger] pairs[i]).0 == pairs[0].0
}

/// The series that a book has from its sources: all name it; its volume is the one that is
/// known, or that of the first source where several are.
pub open spec fn inherited(pairs: Seq<(Seq<char>, Option<i64>)>) -> Option<
    (Seq<char>, Option<i64>),
> {
    if pairs.len() == 0 || !one_series(pairs) {
        None
    } else {
        Some(
            (
                pairs[0].0,
                if volumes_differ(pairs) {
                    pairs[0].1
                } else {
                    first_known(pairs)
                },
            ),
        )
    }
}

/// The series that a book has from its sources.
pub fn inherit_series(pairs: &Vec<(String, Option<i64>)>) -> (r: Option<(String, Option<i64>)>)
    ensures
        match inherited(pair_views(pairs@)) {
            Some(v) => r is Some && (r->0).0@ == v.0 && (r->0).1 == v.1,
            None => r is None,
        },
{
    let ghost all = pair_views(pairs@);
    if pairs.len() == 0 {
        return None;
    }
    let mut i: usize = 0;
    let mut known: Option<i64> = None;
    assert(all.skip(0) =~= all);
    while i < pairs.len()
        invariant
            i <= pairs@.len(),
            0 < pairs@.len(),
            all == pair_views(pairs@),
            forall|k: int| 0 <= k < i ==> (#[trigger] all[k]).0 == all[0].0,
            known is Some ==> first_known(all) == known,
            known is None ==> first_known(all) == first_known(all.skip(i as int)),
        decreases pairs@.len() - i,
    {
        assert(all[i as int] == (pairs@[i as int].0@, pairs@[i as int].1));
        assert(all[0].0 == pairs@[0].0@);
        if !same(&pairs[i].0, &pairs[0].0) {
            assert(all[i as int].0 != all[0].0);
            return None;
        }
        assert(all.skip(i as int)[0] == all[i as int]);
        assert(all.skip(i as int).drop_first() =~= all.skip(i + 1));
        if known.is_none() {
            known = pairs[i].1;
        }
        i += 1;
    }
    let mut differ = false;
    let mut k: usize = 0;
    while k < pairs.len()
        invariant
            k <= pairs@.len(),
            all == pair_views(pairs@),
            known == first_known(all),
            differ == exists|j: int|
                0 <= j < k && (#[trigger] all[j]).1 is Some && all[j].1 != first_known(all),
        decreases pairs@.len() - k,
    {
        assert(all[k as int].1 == pairs@[k as int].1);
        match (pairs[k].1, known) {
            (Some(a), Some(b)) => {
                if a != b {
                    differ = true;
                }
            },
            (Some(_), None) => {
                differ = true;
            },
            _ => {},
        }
        k += 1;
    }
    let order = if differ {
        pairs[0].1
    } else {
        known
    };
    assert(all[0] == (pairs@[0].0@, pairs@[0].1));
    Some((pairs[0].0.as_str().to_owned(), order))
}

/// The first title that a source has and that is not blank.
pub open spec fn first_title(sources: Seq<PendingSource>) -> Option<Seq<char>>
    decreases sources.len(),
{
    if sources.len() == 0 {
        None
    } else if filled(opt_str(sources[0].title)) is Some {
        opt_str(sources[0].title)
    } else {
        first_title(sources.drop_first())
    }
}

/// The first author that a source has and that is not blank.
pub open spec fn first_author(sources: Seq<PendingSource>) -> Option<Seq<char>>
    decreases sources.len(),
{
    if sources.len() == 0 {
        None
    } else if filled(opt_str(sources[0].author)) is Some {
        opt_str(sources[0].author)
    } else {
        first_author(sources.drop_first())
    }
}

fn find_title(sources: &Vec<PendingSource>) -> (r: Option<String>)
    ensures
        opt_str(r) == first_title(sources@),
{
    let mut i: usize = 0;
    assert(sources@.skip(0) =~= sources@);
    while i < sources.len()
        invariant
            i <= sources@.len(),
            first_title(sources@) == first_title(sources@.skip(i as int)),
        decreases sources@.len() - i,
    {
        assert(sources@.skip(i as int)[0] == sources@[i as int]);
        assert(sources@.skip(i as int).drop_first() =~= sources@.skip(i + 1));
        let t = keep_filled(&sources[i].title);
        if t.is_some() {
            return t;
        }
        i += 1;
    }
    None
}

fn find_author(sources: &Vec<PendingSource>) -> (r: Option<String>)
    ensures
        opt_str(r) == first_author(sources@),
{
    let mut i: usize = 0;
    assert(sources@.skip(0) =~= sources@);
    while i < sources.len()
        invariant
            i <= sources@.len(),
            first_author(sources@) == first_author(sources@.skip(i as int)),
        decreases sources@.len() - i,
    {
        assert(sources@.skip(i as int)[0] == sources@[i as int]);
        assert(sources@.skip(i as int).drop_first() =~= sources@.skip(i + 1));
        let t = keep_filled(&sources[i].author);
        if t.is_some() {
            return t;
        }
        i += 1;
    }
    None
}

/// The authors that sources name, each once.
pub open spec fn source_authors(sources: Seq<PendingSource>) -> Seq<Seq<char>>
    decreases sources.len(),
{
    if sources.len() == 0 {
        Seq::empty()
    } else {
        with_part(source_authors(sources.drop_last()), opt_str(sources.last().author))
    }
}

/// The authors of the entries that were chosen, each once.
pub open spec fn match_authors(ms: Seq<SuggestionMatch>) -> Seq<Seq<char>>
    decreases ms.len(),
{
    if ms.len() == 0 {
        Seq::empty()
    } else {
        with_part(match_authors(ms.drop_last()), Some(ms.last().author@))
    }
}

fn list_source_authors(sources: &Vec<PendingSource>) -> (r: Vec<String>)
    ensures
        strs(r@) == source_authors(sources@),
{
    let mut out: Vec<String> = Vec::new();
    let mut i: usize = 0;
    assert(sources@.take(0) =~= Seq::<PendingSource>::empty());
    assert(strs(out@) =~= source_authors(sources@.take(0)));
    while i < sources.len()
        invariant
            i <= sources@.len(),
            strs(out@) == source_authors(sources@.take(i as int)),
        decreases sources@.len() - i,
    {
        assert(sources@.take(i + 1).drop_last() =~= sources@.take(i as int));
        add_part(&mut out, &sources[i].author);
        i += 1;
    }
    assert(sources@.take(sources@.len() as int) =~= sources@);
    out
}

fn list_match_authors(ms: &Vec<SuggestionMatch>) -> (r: Vec<String>)
    ensures
        strs(r@) == match_authors(ms@),
{
    let mut out: Vec<String> = Vec::new();
    let mut i: usize = 0;
    assert(ms@.take(0) =~= Seq::<SuggestionMatch>::empty());
    assert(strs(out@) =~= match_authors(ms@.take(0)));
    while i < ms.len()
        invariant
            i <= ms@.len(),
            strs(out@) == match_authors(ms@.take(i as int)),
        decreases ms@.len() - i,
    {
        assert(ms@.take(i + 1).drop_last() =~= ms@.take(i as int));
        let a = trimmed(&ms[i].author);
        if !a.as_str().is_empty() {
            add_new(&mut out, &a);
        }
        i += 1;
    }
    assert(ms@.take(ms@.len() as int) =~= ms@);
    out
}

/// The title that sources give: that of the first entry, else of the first that was chosen,
/// else of the first page.
pub open spec fn crawled_title(
    clasp: Seq<PendingSource>,
    ms: Seq<SuggestionMatch>,
    douban: Seq<PendingSource>,
) -> Option<Seq<char>> {
    match first_title(clasp) {
        Some(t) => Some(t),
        None => if ms.len() > 0 && !is_blank(ms[0].title@) {
            Some(trim(ms[0].title@))
        } else {
            first_title(douban)
        },
    }
}

/// The authors that sources give: those of the entries, else of those that were chosen, else
/// of the first page.
pub open spec fn crawled_authors(
    clasp: Seq<PendingSource>,
    ms: Seq<SuggestionMatch>,
    douban: Seq<PendingSource>,
) -> Seq<Seq<char>> {
    if source_authors(clasp).len() > 0 {
        source_authors(clasp)
    } else if match_authors(ms).len() > 0 {
        match_authors(ms)
    } else {
        with_part(Seq::empty(), first_author(douban))
    }
}

/// The title and the author of a book: those that its sources give, else those it has.
pub fn crawled_title_author(
    current_title: &str,
    current_author: &str,
    clasp_sources: &Vec<PendingSource>,
    match_list: &Vec<SuggestionMatch>,
    douban_sources: &Vec<PendingSource>,
) -> (r: (String, String))
    ensures
        r.0@ == (match crawled_title(clasp_sources@, match_list@, douban_sources@) {
            Some(t) => plain_title(t),
            None => current_title@,
        }),
        r.1@ == ({
            let authors = crawled_authors(clasp_sources@, match_list@, douban_sources@);
            if authors.len() > 0 {
                join(authors, "、"@)
            } else {
                current_author@
            }
        }),
{
    let mut found = find_title(clasp_sources);
    if found.is_none() {
        if match_list.len() > 0 {
            let t = trimmed(&match_list[0].title);
            if !t.as_str().is_empty() {
                found = Some(t);
            }
        }
        if found.is_none() {
            found = find_title(douban_sources);
        }
    }
    let title = match found {
        Some(t) => simplify_title(&t),
        None => current_title.to_owned(),
    };
    let mut authors = list_source_authors(clasp_sources);
    assert(strs(authors@).len() == authors@.len());
    if authors.len() == 0 {
        authors = list_match_authors(match_list);
        assert(strs(authors@).len() == authors@.len());
    }
    if authors.len() == 0 {
        assert(strs(authors@) =~= Seq::<Seq<char>>::empty());
        add_part(&mut authors, &find_author(douban_sources));
    }
    assert(strs(authors@).len() == authors@.len());
    let author = if authors.len() > 0 {
        joined(&authors, "、")
    } else {
        current_author.to_owned()
    };
    (title, author)
}

/// At most the first 300 characters of a text, with a mark where there are more.
pub open spec fn brief(msg: Seq<char>) -> Seq<char> {
    if msg.len() > 300 {
        msg.take(300) + "…"@
    } else {
        msg
    }
}

/// At most the first 300 characters of a text, with a mark where there are more.
pub fn brief_error(msg: &str) -> (r: String)
    ensures
        r@ == brief(msg@),
{
    let v = chars_of(msg);
    if v.len() > 300 {
        let s = string_of_range(&v, 0, 300);
        assert(s@ =~= msg@.take(300));
        s.concat("…")
    } else {
        msg.to_owned()
    }
}

/// The suggestion that is taken without a question is the only one there is, or else the first
/// whose title is the book's, whatever white space stands around it, in simplified characters
/// and small letters. Where no title is the book's, none is taken.
pub proof fn only_or_same_titled(items: Seq<ClaspBookSuggestion>, title: Seq<char>)
    ensures
        match silent_match(items, title) {
            Some(i) => {
                &&& 0 <= i < items.len()
                &&& items.len() == 1 || lowercase(simplified(trim(items[i].title@))) == lowercase(
                    simplified(trim(title)),
                )
                &&& forall|j: int|
                    0 <= j < i ==> lowercase(simplified(trim((#[trigger] items[j]).title@)))
                        != lowercase(simplified(trim(title)))
            },
            None => {
                &&& items.len() != 1
                &&& forall|j: int|
                    0 <= j < items.len() ==> lowercase(
                        simplified(trim((#[trigger] items[j]).title@)),
                    ) != lowercase(simplified(trim(title)))
            },
        },
{
    if items.len() != 1 {
        first_titled(items, title_key(title), 0);
    }
}

proof fn first_titled(items: Seq<ClaspBookSuggestion>, key: Seq<char>, i: int)
    requires
        0 <= i <= items.len(),
    ensures
        match titled_from(items, key, i) {
            Some(k) => {
                &&& i <= k < items.len()
                &&& title_key(items[k].title@) == key
                &&& forall|j: int| i <= j < k ==> title_key((#[trigger] items[j]).title@) != key
            },
            None => forall|j: int|
                i <= j < items.len() ==> title_key((#[trigger] items[j]).title@) != key,
        },
    decreases items.len() - i,
{
    if i < items.len() && title_key(items[i].title@) != key {
        first_titled(items, key, i + 1);
    }
}

/// What is found counts for more than what the book says of itself. Where a suggestion is
/// taken, its title, in simplified characters, is the title of the book, and its author is the
/// author; only where there is none, or what it says is blank, the book or the name of its file
/// is asked.
pub proof fn found_title_counts(
    items: Seq<ClaspBookSuggestion>,
    raw_title: Option<Seq<char>>,
    raw_author: Option<Seq<char>>,
    path: Seq<char>,
)
    ensures
        ({
            let taken = taken_view(items, own_title(raw_title, path));
            let title = looked_up_title(own_title(raw_title, path), taken);
            let author = looked_up_author(raw_author, taken);
            &&& items.len() == 1 ==> taken == Some(items[0]@)
            &&& (taken matches Some(s) && !is_blank(s.title)) ==> in_simplified(
                trim(taken->0.title),
                title,
            )
            &&& (taken matches Some(s) ==> is_blank(s.title)) ==> (if raw_title matches Some(t)
                && !is_blank(t) {
                in_simplified(raw_title->0, title)
            } else {
                in_simplified(path_stem(path), title)
            })
            &&& (taken matches Some(s) && !is_blank(s.author_name)) ==> author == trim(
                taken->0.author_name,
            )
            &&& (taken matches Some(s) ==> is_blank(s.author_name)) ==> author == (
            match raw_author {
                Some(a) => a,
                None => Seq::empty(),
            })
        }),
{
    let taken = taken_view(items, own_title(raw_title, path));
    match taken {
        Some(s) => {
            han_are_those_of_the_block(trim(s.title));
        },
        None => {},
    }
    han_are_those_of_the_block(path_stem(path));
    match raw_title {
        Some(t) => {
            han_are_those_of_the_block(t);
        },
        None => {},
    }
}

/// A book belongs to a series where all its sources name it. Its volume is that which a source
/// names, where no two name different ones; and else what the first source says.
pub proof fn series_is_inherited_where_all_agree(pairs: Seq<(Seq<char>, Option<i64>)>)
    ensures
        inherited(pairs) is Some <==> pairs.len() > 0 && forall|i: int, j: int|
            0 <= i < pairs.len() && 0 <= j < pairs.len() ==> (#[trigger] pairs[i]).0 == (
            #[trigger] pairs[j]).0,
        inherited(pairs) matches Some(s) ==> s.0 == pairs[0].0,
        inherited(pairs) is Some && (forall|i: int, j: int|
            0 <= i < pairs.len() && 0 <= j < pairs.len() && (#[trigger] pairs[i]).1 is Some && (
            #[trigger] pairs[j]).1 is Some ==> pairs[i].1 == pairs[j].1) ==> {
            let v = (inherited(pairs)->0).1;
            &&& v is None <==> forall|i: int| 0 <= i < pairs.len() ==> (#[trigger] pairs[i]).1 is None
            &&& v is Some ==> exists|i: int| 0 <= i < pairs.len() && (#[trigger] pairs[i]).1 == v
        },
        inherited(pairs) is Some && !(forall|i: int, j: int|
            0 <= i < pairs.len() && 0 <= j < pairs.len() && (#[trigger] pairs[i]).1 is Some && (
            #[trigger] pairs[j]).1 is Some ==> pairs[i].1 == pairs[j].1) ==> (inherited(pairs)->0).1
            == pairs[0].1,
{
    volume_is_known(pairs);
    if pairs.len() > 0 && (forall|i: int, j: int|
        0 <= i < pairs.len() && 0 <= j < pairs.len() ==> (#[trigger] pairs[i]).0 == (
        #[trigger] pairs[j]).0) {
        assert forall|i: int| 0 <= i < pairs.len() implies (#[trigger] pairs[i]).0 == pairs[0].0 by {}
        assert(one_series(pairs));
    }
    if !(forall|i: int, j: int|
        0 <= i < pairs.len() && 0 <= j < pairs.len() && (#[trigger] pairs[i]).1 is Some && (
        #[trigger] pairs[j]).1 is Some ==> pairs[i].1 == pairs[j].1) {
        let (i, j) = choose|i: int, j: int|
            0 <= i < pairs.len() && 0 <= j < pairs.len() && (#[trigger] pairs[i]).1 is Some && (
            #[trigger] pairs[j]).1 is Some && pairs[i].1 != pairs[j].1;
        if pairs[i].1 == first_known(pairs) {
            assert(pairs[j].1 != first_known(pairs));
        }
        assert(volumes_differ(pairs));
    }
}

proof fn volume_is_known(pairs: Seq<(Seq<char>, Option<i64>)>)
    ensures
        match first_known(pairs) {
            Some(v) => exists|i: int|
                0 <= i < pairs.len() && (#[trigger] pairs[i]).1 == Some(v) && forall|j: int|
                    0 <= j < i ==> (#[trigger] pairs[j]).1 is None,
            None => forall|i: int| 0 <= i < pairs.len() ==> (#[trigger] pairs[i]).1 is None,
        },
    decreases pairs.len(),
{
    if pairs.len() > 0 {
        let rest = pairs.drop_first();
        if pairs[0].1 is None {
            volume_is_known(rest);
            match first_known(rest) {
                Some(v) => {
                    let i = choose|i: int|
                        0 <= i < rest.len() && (#[trigger] rest[i]).1 == Some(v) && forall|j: int|
                            0 <= j < i ==> (#[trigger] rest[j]).1 is None;
                    assert(pairs[i + 1].1 == Some(v));
                    assert forall|j: int| 0 <= j < i + 1 implies (#[trigger] pairs[j]).1 is None by {
                        if j > 0 {
                            assert(rest[j - 1] == pairs[j]);
                        }
                    }
                },
                None => {
                    assert forall|i: int| 0 <= i < pairs.len() implies (
                    #[trigger] pairs[i]).1 is None by {
                        if i > 0 {
                            assert(rest[i - 1] == pairs[i]);
                        }
                    }
                },
            }
        } else {
            assert(pairs[0].1 == first_known(pairs));
        }
    }
}

proof fn title_is_first(sources: Seq<PendingSource>)
    ensures
        match first_title(sources) {
            Some(t) => !is_blank(t) && exists|i: int|
                0 <= i < sources.len() && opt_str((#[trigger] sources[i]).title) == Some(t)
                    && forall|j: int|
                    0 <= j < i ==> ((#[trigger] sources[j]).title matches Some(u) ==> is_blank(u@)),
            None => forall|j: int|
                0 <= j < sources.len() ==> ((#[trigger] sources[j]).title matches Some(u)
                    ==> is_blank(u@)),
        },
    decreases sources.len(),
{
    if sources.len() > 0 {
        let rest = sources.drop_first();
        if filled(opt_str(sources[0].title)) is None {
            title_is_first(rest);
            match first_title(rest) {
                Some(t) => {
                    let i = choose|i: int|
                        0 <= i < rest.len() && opt_str((#[trigger] rest[i]).title) == Some(t)
                            && forall|j: int|
                            0 <= j < i ==> ((#[trigger] rest[j]).title matches Some(u)
                                ==> is_blank(u@));
                    assert(opt_str(sources[i + 1].title) == Some(t));
                    assert forall|j: int| 0 <= j < i + 1 implies ((#[trigger] sources[j]).title
                        matches Some(u) ==> is_blank(u@)) by {
                        if j > 0 {
                            assert(rest[j - 1] == sources[j]);
                        }
                    }
                },
                None => {
                    assert forall|j: int| 0 <= j < sources.len() implies ((
                    #[trigger] sources[j]).title matches Some(u) ==> is_blank(u@)) by {
                        if j > 0 {
                            assert(rest[j - 1] == sources[j]);
                        }
                    }
                },
            }
        } else {
            assert(opt_str(sources[0].title) == first_title(sources));
        }
    }
}

/// Whether source `i` is the first whose title is not blank, and `t` is that title.
pub open spec fn is_first_title(sources: Seq<PendingSource>, i: int, t: Seq<char>) -> bool {
    &&& 0 <= i < sources.len()
    &&& opt_str(sources[i].title) == Some(t) && !is_blank(t)
    &&& forall|j: int|
        0 <= j < i ==> ((#[trigger] sources[j]).title matches Some(u) ==> is_blank(u@))
}

/// Whether no source has a title that is not blank.
pub open spec fn no_title(sources: Seq<PendingSource>) -> bool {
    forall|j: int|
        0 <= j < sources.len() ==> ((#[trigger] sources[j]).title matches Some(u) ==> is_blank(u@))
}

/// The title that sources give is the first that is not blank: of the entries that were looked
/// at first, then that of the first entry that was chosen, then of the pages; there is none
/// where all are blank.
pub proof fn entries_name_the_book_before_pages(
    clasp: Seq<PendingSource>,
    ms: Seq<SuggestionMatch>,
    douban: Seq<PendingSource>,
)
    ensures
        match crawled_title(clasp, ms, douban) {
            Some(t) => {
                ||| exists|i: int| is_first_title(clasp, i, t)
                ||| no_title(clasp) && ms.len() > 0 && !is_blank(ms[0].title@) && t == trim(
                    ms[0].title@,
                )
                ||| no_title(clasp) && !(ms.len() > 0 && !is_blank(ms[0].title@)) && exists|i: int|
                    is_first_title(douban, i, t)
            },
            None => no_title(clasp) && no_title(douban) && !(ms.len() > 0 && !is_blank(
                ms[0].title@,
            )),
        },
{
    title_is_first(clasp);
    title_is_first(douban);
    match first_title(clasp) {
        Some(t) => {
            let i = choose|i: int|
                0 <= i < clasp.len() && opt_str((#[trigger] clasp[i]).title) == Some(t) && forall|
                    j: int,
                |
                    0 <= j < i ==> ((#[trigger] clasp[j]).title matches Some(u) ==> is_blank(u@));
            assert(is_first_title(clasp, i, t));
        },
        None => {
            match first_title(douban) {
                Some(t) => {
                    let i = choose|i: int|
                        0 <= i < douban.len() && opt_str((#[trigger] douban[i]).title) == Some(t)
                            && forall|j: int|
                            0 <= j < i ==> ((#[trigger] douban[j]).title matches Some(u)
                                ==> is_blank(u@));
                    assert(is_first_title(douban, i, t));
                },
                None => {},
            }
        },
    }
}

spec fn author_list(o: Option<Seq<char>>) -> Seq<Seq<char>> {
    match o {
        Some(a) => if is_blank(a) {
            Seq::empty()
        } else {
            seq![trim(a)]
        },
        None => Seq::empty(),
    }
}

proof fn one_part(acc: Seq<Seq<char>>, o: Option<Seq<char>>)
    ensures
        with_part(acc, o) == with_all_new(acc, author_list(o)),
{
    let v = author_list(o);
    if v.len() > 0 {
        assert(v.drop_last() =~= Seq::<Seq<char>>::empty());
        assert(with_all_new(acc, v.drop_last()) == acc);
    }
}

/// The authors that sources name are all of them, without the white space around them, none
/// that is blank and none twice.
pub proof fn every_source_names_its_author(sources: Seq<PendingSource>, x: Seq<char>)
    ensures
        source_authors(sources).no_duplicates(),
        source_authors(sources).contains(x) <==> exists|i: int|
            0 <= i < sources.len() && ((#[trigger] sources[i]).author matches Some(a) && !is_blank(
                a@,
            ) && trim(a@) == x),
    decreases sources.len(),
{
    if sources.len() > 0 {
        let init = sources.drop_last();
        every_source_names_its_author(init, x);
        let o = opt_str(sources.last().author);
        one_part(source_authors(init), o);
        union_is_distinct(source_authors(init), author_list(o));
        if o is Some && !is_blank(o->0) {
            assert(author_list(o)[0] == trim(o->0));
        }
        if author_list(o).contains(x) {
            let q = choose|q: int| 0 <= q < author_list(o).len() && author_list(o)[q] == x;
            assert(sources[sources.len() - 1].author matches Some(a) && !is_blank(a@) && trim(a@)
                == x);
        }
        if exists|i: int|
            0 <= i < init.len() && ((#[trigger] init[i]).author matches Some(a) && !is_blank(a@)
                && trim(a@) == x) {
            let i = choose|i: int|
                0 <= i < init.len() && ((#[trigger] init[i]).author matches Some(a) && !is_blank(
                    a@,
                ) && trim(a@) == x);
            assert(sources[i] == init[i]);
        }
        if exists|i: int|
            0 <= i < sources.len() && ((#[trigger] sources[i]).author matches Some(a) && !is_blank(
                a@,
            ) && trim(a@) == x) {
            let i = choose|i: int|
                0 <= i < sources.len() && ((#[trigger] sources[i]).author matches Some(a)
                    && !is_blank(a@) && trim(a@) == x);
            if i < init.len() {
                assert(sources[i] == init[i]);
            }
        }
    }
}

/// The covers of editions are one for each address that an edition has, without the white
/// space around it; none is blank and none stands twice, and each is labelled as the first
/// edition that has it.
pub proof fn each_edition_cover_once(eds: Seq<ClaspEdition>, u: Seq<char>)
    ensures
        forall|a: int, b: int|
            0 <= a < b < edition_covers(eds).len() ==> (#[trigger] edition_covers(eds)[a]).url != (
            #[trigger] edition_covers(eds)[b]).url,
        has_cover_url(edition_covers(eds), u) <==> exists|i: int|
            0 <= i < eds.len() && ((#[trigger] eds[i]).cover_url matches Some(c) && !is_blank(c@)
                && trim(c@) == u),
        forall|a: int|
            0 <= a < edition_covers(eds).len() ==> edition_has_cover(
                eds,
                #[trigger] edition_covers(eds)[a],
            ),
    decreases eds.len(),
{
    let all = edition_covers(eds);
    if eds.len() > 0 {
        let init = eds.drop_last();
        each_edition_cover_once(init, u);
        let before = edition_covers(init);
        let last = eds.len() - 1;
        assert forall|a: int| 0 <= a < all.len() implies edition_has_cover(
            eds,
            #[trigger] all[a],
        ) by {
            if a < before.len() {
                assert(all[a] == before[a]);
                assert(edition_has_cover(init, before[a]));
                let i = choose|i: int|
                    0 <= i < init.len() && ((#[trigger] init[i]).cover_url matches Some(c)
                        && trim(c@) == before[a].url && before[a].label == join(
                        label_parts(init[i]),
                        " · "@,
                    ));
                assert(eds[i] == init[i]);
            } else {
                assert(eds[last].cover_url matches Some(c) && trim(c@) == all[a].url
                    && all[a].label == join(label_parts(eds[last]), " · "@));
            }
        }
        if has_cover_url(before, u) {
            let a = choose|a: int| 0 <= a < before.len() && (#[trigger] before[a]).url == u;
            assert(all[a].url == u);
        }
        if has_cover_url(all, u) && !has_cover_url(before, u) {
            let a = choose|a: int| 0 <= a < all.len() && (#[trigger] all[a]).url == u;
            if a < before.len() {
                assert(before[a].url == u);
            }
            assert(eds[last].cover_url matches Some(c) && !is_blank(c@) && trim(c@) == u);
        }
        if exists|i: int|
            0 <= i < init.len() && ((#[trigger] init[i]).cover_url matches Some(c) && !is_blank(c@)
                && trim(c@) == u) {
            let i = choose|i: int|
                0 <= i < init.len() && ((#[trigger] init[i]).cover_url matches Some(c) && !is_blank(
                    c@,
                ) && trim(c@) == u);
            assert(eds[i] == init[i]);
        }
        if exists|i: int|
            0 <= i < eds.len() && ((#[trigger] eds[i]).cover_url matches Some(c) && !is_blank(c@)
                && trim(c@) == u) {
            let i = choose|i: int|
                0 <= i < eds.len() && ((#[trigger] eds[i]).cover_url matches Some(c) && !is_blank(
                    c@,
                ) && trim(c@) == u);
            if i < init.len() {
                assert(eds[i] == init[i]);
            } else if !has_cover_url(before, u) {
                assert(all[before.len() as int].url == u);
            }
        }
        assert forall|a: int, b: int| 0 <= a < b < all.len() implies (#[trigger] all[a]).url != (
        #[trigger] all[b]).url by {
            assert(all[a] == before[a]);
            if b < before.len() {
                assert(all[b] == before[b]);
            }
        }
    }
}

/// Whether `c` is the cover of an edition, under its label.
pub open spec fn edition_has_cover(eds: Seq<ClaspEdition>, c: CoverView) -> bool {
    exists|i: int|
        0 <= i < eds.len() && ((#[trigger] eds[i]).cover_url matches Some(u) && trim(u@) == c.url
            && c.label == join(label_parts(eds[i]), " · "@))
}

// ---- what an entry gives ----

/// Whether `s` holds what the item `it` of an answer says: its title without white space at its
/// ends, its author, its tags that are not blank, its cover, its summary where it is not blank,
/// and the page that the cover leads to.
pub proof fn what_a_suggestion_holds(
    items: Seq<ClaspBookItem>,
    v: Seq<ClaspBookSuggestion>,
    i: int,
)
    requires
        suggestions_of(items, v),
        0 <= i < items.len(),
    ensures
        v.len() == items.len(),
        v[i].id == items[i].id,
        v[i].title@ == trim(items[i].title@),
        v[i].author_name@ == items[i].author_text(),
        strs(v[i].tags@) == tidy(tag_seq(items[i].tags@)),
        v[i].cover_url == items[i].cover_url,
        items[i].summary_no_spoiler is None ==> v[i].summary is None,
        items[i].summary_no_spoiler matches Some(t) ==> (is_blank(t@) ==> v[i].summary is None) && (
        !is_blank(t@) ==> opt_str(v[i].summary) == Some(t@)),
        items[i].cover_url is None ==> v[i].douban_url is None,
        (items[i].cover_url is Some && first_group("douban-(\\d+)"@, items[i].cover_url->0@) is None)
            ==> v[i].douban_url is None,
        (items[i].cover_url is Some && first_group("douban-(\\d+)"@, items[i].cover_url->0@) is Some)
            ==> opt_str(v[i].douban_url) == Some(
            "https://book.douban.com/subject/"@ + first_group(
                "douban-(\\d+)"@,
                items[i].cover_url->0@,
            )->0 + "/"@,
        ),
{
    let s = v[i];
}

/// An entry becomes a source with its own title, author, summary, cover, tags and series, each
/// where it is not blank; its page is that of its main edition, else that of the first edition
/// that has one, else the one that its cover leads to; its comments are the best of those that
/// were found. Where it could not be had, nothing but its id is known.
pub proof fn what_an_entry_gives(
    r: PendingSource,
    id: Seq<char>,
    d: ClaspBookDetail,
    reviews: Option<Seq<RemarkView>>,
    bare: PendingSource,
)
    requires
        is_clasp_source(r, id, Some(d), reviews),
        is_clasp_source(bare, id, None, reviews),
    ensures
        r.ref_key@ == id,
        d.title is None || is_blank(d.title->0@) ==> r.title is None,
        d.title is Some && !is_blank(d.title->0@) ==> opt_str(r.title) == Some(d.title->0@),
        d.author is None || is_blank(d.author->0.name@) ==> r.author is None,
        d.author is Some && !is_blank(d.author->0.name@) ==> opt_str(r.author) == Some(
            trim(d.author->0.name@),
        ),
        d.summary_no_spoiler is None || is_blank(d.summary_no_spoiler->0@) ==> r.summary is None,
        d.summary_no_spoiler is Some && !is_blank(d.summary_no_spoiler->0@) ==> opt_str(r.summary)
            == Some(d.summary_no_spoiler->0@),
        opt_str(r.cover_url) == opt_str(d.cover_url) && r.cover_path is None,
        r.tags is Some ==> strs(r.tags->0@) == tidy(tag_seq(d.tags@)),
        r.tags is None <==> tidy(tag_seq(d.tags@)).len() == 0,
        main_edition_url(d.editions@) is Some ==> opt_str(r.douban_url) == main_edition_url(
            d.editions@,
        ),
        main_edition_url(d.editions@) is None && first_edition_url(d.editions@) is Some ==> opt_str(
            r.douban_url,
        ) == first_edition_url(d.editions@),
        main_edition_url(d.editions@) is None && first_edition_url(d.editions@) is None ==> opt_str(
            r.douban_url,
        ) == cover_book_url(opt_str(d.cover_url)),
        (d.series is Some && d.series->0.name is Some && !is_blank(d.series->0.name->0@)) ==> {
            &&& r.series is Some
            &&& (r.series->0).0@ == trim(d.series->0.name->0@)
            &&& (r.series->0).1 == d.series->0.order
        },
        (d.series is None || d.series->0.name is None || is_blank(d.series->0.name->0@))
            ==> r.series is None,
        reviews is None ==> r.comments@.len() == 0,
        reviews matches Some(v) ==> remarks(r.comments@) == best_remarks(v),
        bare.ref_key@ == id && bare.title is None && bare.author is None && bare.summary is None,
        bare.cover_url is None && bare.cover_path is None && bare.tags is None && bare.series is None,
        bare.douban_url is None && bare.editions_json is None && bare.comments@.len() == 0,
{
    if reviews is None {
        assert(remarks(r.comments@).len() == r.comments@.len());
    }
}

/// The authors of a book are those that its entries name; only where these name none, those of
/// the entries that were chosen, and only where these name none either, that of the first page
/// that names one.
pub proof fn entries_name_the_authors_before_pages(
    clasp: Seq<PendingSource>,
    ms: Seq<SuggestionMatch>,
    douban: Seq<PendingSource>,
)
    ensures
        source_authors(clasp).len() > 0 ==> crawled_authors(clasp, ms, douban) == source_authors(
            clasp,
        ),
        source_authors(clasp).len() == 0 ==> crawled_authors(clasp, ms, douban) == crawled_authors(
            Seq::empty(),
            ms,
            douban,
        ),
        match_authors(ms).len() > 0 ==> crawled_authors(Seq::empty(), ms, douban) == match_authors(
            ms,
        ),
        match_authors(ms) == united(
            ms.map_values(
                |m: SuggestionMatch|
                    if is_blank(m.author@) {
                        Seq::<Seq<char>>::empty()
                    } else {
                        seq![trim(m.author@)]
                    },
            ),
        ),
        match_authors(ms).len() == 0 ==> (first_author(douban) matches Some(a) ==> (!is_blank(a)
            ==> crawled_authors(Seq::empty(), ms, douban) == seq![trim(a)])),
{
    chosen_authors(ms);
    if let Some(a) = first_author(douban) {
        assert(Seq::<Seq<char>>::empty().push(trim(a)) =~= seq![trim(a)]);
    }
}

proof fn chosen_authors(ms: Seq<SuggestionMatch>)
    ensures
        match_authors(ms) == united(
            ms.map_values(
                |m: SuggestionMatch|
                    if is_blank(m.author@) {
                        Seq::<Seq<char>>::empty()
                    } else {
                        seq![trim(m.author@)]
                    },
            ),
        ),
    decreases ms.len(),
{
    let f = |m: SuggestionMatch|
        if is_blank(m.author@) {
            Seq::<Seq<char>>::empty()
        } else {
            seq![trim(m.author@)]
        };
    if ms.len() > 0 {
        let d = ms.drop_last();
        chosen_authors(d);
        assert(ms.map_values(f).drop_last() =~= d.map_values(f));
        assert(ms.map_values(f).last() == f(ms.last()));
        one_part(match_authors(d), Some(ms.last().author@));
        assert(author_list(Some(ms.last().author@)) == f(ms.last()));
    } else {
        assert(ms.map_values(f).len() == 0);
    }
}

/// The first author of pages is that of the first page whose author is not blank.
pub proof fn the_first_page_with_an_author_counts(sources: Seq<PendingSource>, k: int)
    requires
        0 <= k <= sources.len(),
        forall|i: int|
            0 <= i < k ==> ((#[trigger] sources[i]).author matches Some(a) ==> is_blank(a@)),
    ensures
        k == sources.len() ==> first_author(sources) is None,
        (k < sources.len() && sources[k].author is Some && !is_blank(sources[k].author->0@))
            ==> first_author(sources) == Some(sources[k].author->0@),
    decreases sources.len(),
{
    if sources.len() > 0 && k > 0 {
        let d = sources.drop_first();
        assert(sources[0].author matches Some(a) ==> is_blank(a@));
        assert(forall|i: int| 0 <= i < d.len() ==> #[trigger] d[i] == sources[i + 1]);
        assert(k < sources.len() ==> d[k - 1] == sources[k]);
        the_first_page_with_an_author_counts(d, k - 1);
    }
}

/// The year of an edition is what its date begins with, where that is four digits.
pub proof fn four_digits_make_a_year(y: Seq<char>, rest: Seq<char>)
    requires
        forall|i: int| 0 <= i < y.len() ==> is_digit(#[trigger] y[i]),
        rest.len() > 0 ==> !is_digit(rest[0]),
    ensures
        y.len() == 4 ==> year_of(Some(y + rest)) == Some(y),
        y.len() != 4 ==> year_of(Some(y + rest)) is None,
        year_of(None) is None,
{
    digits_lead(y, rest);
}

proof fn digits_lead(y: Seq<char>, rest: Seq<char>)
    requires
        forall|i: int| 0 <= i < y.len() ==> is_digit(#[trigger] y[i]),
        rest.len() > 0 ==> !is_digit(rest[0]),
    ensures
        leading_digits(y + rest) == y,
    decreases y.len(),
{
    let s = y + rest;
    if y.len() == 0 {
        assert(s =~= rest);
        assert(leading_digits(s) =~= y);
    } else {
        let d = y.drop_first();
        assert(s[0] == y[0]);
        assert(is_digit(y[0]));
        assert(s.drop_first() =~= d + rest);
        assert(forall|i: int| 0 <= i < d.len() ==> #[trigger] d[i] == y[i + 1]);
        digits_lead(d, rest);
        assert(seq![y[0]] + d =~= y);
    }
}

/// What stands in a label for a part: the part without white space at its ends, and nothing where
/// it is blank.
pub open spec fn labelled(o: Option<Seq<char>>) -> Seq<Seq<char>> {
    match o {
        Some(t) => if is_blank(t) {
            Seq::empty()
        } else {
            seq![trim(t)]
        },
        None => Seq::empty(),
    }
}

/// The name of the imprint of an edition.
pub open spec fn imprint_of(e: ClaspEdition) -> Option<Seq<char>> {
    match e.imprint {
        Some(i) => opt_str(i.name),
        None => None,
    }
}

/// The label of an edition names its publisher, its imprint, its year, its binding, its language
/// and its translator, in this order, each that is not blank and none twice.
pub proof fn a_label_names_each_part_once(e: ClaspEdition)
    ensures
        label_parts(e) == united(
            seq![
                labelled(opt_str(e.publisher)),
                labelled(imprint_of(e)),
                labelled(year_of(opt_str(e.published_at))),
                labelled(opt_str(e.binding)),
                labelled(opt_str(e.language)),
                labelled(opt_str(e.translator)),
            ],
        ),
{
    let publisher = opt_str(e.publisher);
    let imprint = imprint_of(e);
    let year = year_of(opt_str(e.published_at));
    let none = Seq::<Seq<Seq<char>>>::empty();
    let v1 = none.push(labelled(publisher));
    let v2 = v1.push(labelled(imprint));
    let v3 = v2.push(labelled(year));
    let v4 = v3.push(labelled(opt_str(e.binding)));
    let v5 = v4.push(labelled(opt_str(e.language)));
    let v6 = v5.push(labelled(opt_str(e.translator)));
    let p0 = with_part(Seq::empty(), publisher);
    one_more(none, Seq::empty(), publisher);
    assert(united(none) =~= Seq::<Seq<char>>::empty());
    one_more(v1, p0, imprint);
    if e.imprint is Some && trim_opt(imprint) == trim_opt(publisher) {
        if imprint is Some && !is_blank(imprint->0) {
            assert(p0 =~= seq![trim(publisher->0)]);
            assert(p0[0] == trim(imprint->0));
            assert(p0.contains(trim(imprint->0)));
        }
        assert(with_part(p0, imprint) == p0);
    }
    let p1 = with_part(p0, imprint);
    one_more(v2, p1, year);
    let p2 = with_part(p1, year);
    one_more(v3, p2, opt_str(e.binding));
    let p3 = with_part(p2, opt_str(e.binding));
    one_more(v4, p3, opt_str(e.language));
    let p4 = with_part(p3, opt_str(e.language));
    one_more(v5, p4, opt_str(e.translator));
    assert(united(v6) == label_parts(e));
    assert(v6 =~= seq![
        labelled(publisher),
        labelled(imprint),
        labelled(year),
        labelled(opt_str(e.binding)),
        labelled(opt_str(e.language)),
        labelled(opt_str(e.translator)),
    ]);
}

proof fn one_more(v: Seq<Seq<Seq<char>>>, acc: Seq<Seq<char>>, o: Option<Seq<char>>)
    requires
        united(v) == acc,
    ensures
        united(v.push(labelled(o))) == with_part(acc, o),
{
    assert(v.push(labelled(o)).drop_last() =~= v);
    assert(labelled(o) =~= author_list(o));
    one_part(acc, o);
}

/// A message is shown whole up to three hundred characters; of a longer one its beginning is
/// shown, with a mark.
pub proof fn long_messages_are_cut(msg: Seq<char>)
    ensures
        msg.len() <= 300 ==> brief(msg) == msg,
        msg.len() > 300 ==> brief(msg) == msg.take(300) + "…"@,
{
}

} // verus!
