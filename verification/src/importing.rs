//! Importing a book step by step: what is shown, and what the user changes.
use vstd::prelude::*;
use vstd::string::*;

use crate::ingestion::{ClaspSearchPage, EpubAnalysis, PendingSource, PreparedImport, SuggestionMatch};
use crate::libraries::copy_opt;
use crate::reader::{ReaderChapter, ReaderContent};
use crate::spider::{add_all_new, with_all_new, ClaspBookSuggestion};
use crate::sync::SyncReport;
use crate::text::{
    blank, clone_strings, dec, dec_u64, is_blank, opt_str, same, strs, trim, trimmed,
};
use crate::utils::{tidied, tidy};

verus! {

/// What a task that was stopped answers.
pub const CANCELLED_MSG: &'static str = "任务已取消";

// ---- matches ----

/// A match that the user confirmed.
#[derive(Debug)]
pub struct MatchInfo {
    pub id: String,
    pub title: String,
    pub author: String,
    pub tags: Vec<String>,
    pub cover_url: Option<String>,
    pub summary: Option<String>,
    pub douban_url: Option<String>,
}

/// A match, as it is shown.
#[derive(Debug)]
pub struct MatchDto {
    pub id: String,
    pub title: String,
    pub author: String,
    pub tags: Vec<String>,
    pub cover_url: Option<String>,
    pub summary: Option<String>,
    pub douban_url: Option<String>,
}

/// Whether `d` shows `s`.
pub open spec fn shows_match(d: MatchDto, s: ClaspBookSuggestion) -> bool {
    &&& d.id == s.id
    &&& d.title == s.title
    &&& d.author == s.author_name
    &&& d.tags@ == s.tags@
    &&& d.cover_url == s.cover_url
    &&& d.summary == s.summary
    &&& d.douban_url == s.douban_url
}

impl MatchDto {
    pub fn from_suggestion(s: &ClaspBookSuggestion) -> (r: MatchDto)
        ensures
            shows_match(r, *s),
    {
        MatchDto {
            id: s.id.clone(),
            title: s.title.clone(),
            author: s.author_name.clone(),
            tags: clone_strings(&s.tags),
            cover_url: copy_opt(&s.cover_url),
            summary: copy_opt(&s.summary),
            douban_url: copy_opt(&s.douban_url),
        }
    }
}

/// Whether `s` is what the user confirmed.
pub open spec fn is_confirmed(s: SuggestionMatch, m: MatchInfo) -> bool {
    &&& s.id == m.id
    &&& s.title == m.title
    &&& s.author == m.author
    &&& s.tags@ == m.tags@
    &&& s.cover_url == m.cover_url
    &&& s.summary == m.summary
    &&& s.douban_url == m.douban_url
}

/// The matches that the user confirmed.
pub fn to_suggestion_matches(matched: &Vec<MatchInfo>) -> (r: Vec<SuggestionMatch>)
    ensures
        r@.len() == matched@.len(),
        forall|i: int| 0 <= i < r@.len() ==> is_confirmed(#[trigger] r@[i], matched@[i]),
{
    let mut out: Vec<SuggestionMatch> = Vec::new();
    let mut i: usize = 0;
    while i < matched.len()
        invariant
            i <= matched@.len(),
            out@.len() == i,
            forall|k: int| 0 <= k < i ==> is_confirmed(#[trigger] out@[k], matched@[k]),
        decreases matched@.len() - i,
    {
        let m = &matched[i];
        out.push(
            SuggestionMatch {
                id: m.id.clone(),
                title: m.title.clone(),
                author: m.author.clone(),
                tags: clone_strings(&m.tags),
                cover_url: copy_opt(&m.cover_url),
                summary: copy_opt(&m.summary),
                douban_url: copy_opt(&m.douban_url),
            },
        );
        i += 1;
    }
    out
}

// ---- searching ----

/// A page of a search, as it is shown.
#[derive(Debug)]
pub struct SearchPageDto {
    pub items: Vec<MatchDto>,
    pub page: i64,
    pub total_pages: i64,
    pub total: i64,
    /// Nothing matched exactly.
    pub fuzzy: bool,
}

/// The words and the page that are searched for; pages count from 1.
pub fn search_request(keyword: &str, page: Option<i64>) -> (r: Result<(String, i64), String>)
    ensures
        match r {
            Ok((k, p)) => {
                &&& !is_blank(keyword@)
                &&& k@ == trim(keyword@)
                &&& p == (match page {
                    Some(n) => if n > 1 {
                        n
                    } else {
                        1
                    },
                    None => 1,
                })
            },
            Err(e) => is_blank(keyword@) && e@ == "搜索关键词不能为空"@,
        },
{
    if blank(keyword) {
        return Err("搜索关键词不能为空".to_owned());
    }
    let p: i64 = match page {
        Some(n) => if n > 1 {
            n
        } else {
            1
        },
        None => 1,
    };
    Ok((trimmed(keyword), p))
}

/// A page of a search, as it is shown.
pub fn search_page_dto(found: &ClaspSearchPage, page: i64) -> (r: SearchPageDto)
    ensures
        r.items@.len() == found.items@.len(),
        forall|i: int| 0 <= i < r.items@.len() ==> shows_match(#[trigger] r.items@[i], found.items@[i]),
        r.page == page,
        r.total_pages == found.total_pages,
        r.total == found.total,
        r.fuzzy == found.fuzzy,
{
    let mut items: Vec<MatchDto> = Vec::new();
    let mut i: usize = 0;
    while i < found.items.len()
        invariant
            i <= found.items@.len(),
            items@.len() == i,
            forall|k: int| 0 <= k < i ==> shows_match(#[trigger] items@[k], found.items@[k]),
        decreases found.items@.len() - i,
    {
        items.push(MatchDto::from_suggestion(&found.items[i]));
        i += 1;
    }
    SearchPageDto {
        items,
        page,
        total_pages: found.total_pages,
        total: found.total,
        fuzzy: found.fuzzy,
    }
}

// ---- the steps of an import ----

/// What was found out about a book, as it is shown.
#[derive(Debug)]
pub struct EpubPreviewDto {
    pub path: String,
    pub title: String,
    pub author: String,
    pub is_chinese: bool,
    pub has_epub_cover: bool,
    /// The mended copy of the book, where it had to be mended.
    pub effective_path: Option<String>,
    pub search_results: usize,
    pub matched: Option<MatchDto>,
}

/// What was found out about a book, as it is shown.
pub fn preview_dto(path: &str, a: &EpubAnalysis) -> (r: EpubPreviewDto)
    ensures
        r.path@ == path@,
        r.title == a.title,
        r.author == a.author,
        r.is_chinese == a.is_chinese_title,
        r.has_epub_cover == a.has_epub_cover,
        r.effective_path == a.effective_path,
        r.search_results == a.search_results,
        match a.suggestion {
            Some(s) => r.matched matches Some(m) && shows_match(m, s),
            None => r.matched is None,
        },
{
    EpubPreviewDto {
        path: path.to_owned(),
        title: a.title.clone(),
        author: a.author.clone(),
        is_chinese: a.is_chinese_title,
        has_epub_cover: a.has_epub_cover,
        effective_path: copy_opt(&a.effective_path),
        search_results: a.search_results,
        matched: match &a.suggestion {
            Some(s) => Some(MatchDto::from_suggestion(s)),
            None => None,
        },
    }
}

/// What an import came to.
#[derive(Debug)]
pub struct ImportResultDto {
    pub id: i64,
    pub title: String,
    pub author: String,
    pub library_file: String,
    pub cover_path: Option<String>,
    pub comments: usize,
    pub fusion_model: Option<String>,
    pub fusion_error: Option<String>,
}

/// How many comments the sources have.
pub open spec fn comment_count(sources: Seq<PendingSource>) -> nat
    decreases sources.len(),
{
    if sources.len() == 0 {
        0
    } else {
        comment_count(sources.drop_last()) + sources.last().comments@.len()
    }
}

/// `n`, as far as it can be counted.
pub open spec fn counted(n: nat) -> nat {
    if n <= usize::MAX {
        n
    } else {
        usize::MAX as nat
    }
}

fn more(a: usize, b: usize) -> (r: usize)
    ensures
        r == counted((a + b) as nat),
{
    if a > usize::MAX - b {
        usize::MAX
    } else {
        a + b
    }
}

fn count_comments(start: usize, sources: &Vec<PendingSource>) -> (r: usize)
    ensures
        r == counted(start as nat + comment_count(sources@)),
{
    let mut n: usize = start;
    let mut i: usize = 0;
    assert(sources@.take(0) =~= Seq::<PendingSource>::empty());
    while i < sources.len()
        invariant
            i <= sources@.len(),
            n == counted(start as nat + comment_count(sources@.take(i as int))),
        decreases sources@.len() - i,
    {
        assert(sources@.take(i + 1).drop_last() =~= sources@.take(i as int));
        n = more(n, sources[i].comments.len());
        i += 1;
    }
    assert(sources@.take(sources@.len() as int) =~= sources@);
    n
}

/// How many comments an import brings.
pub open spec fn import_comments(p: PreparedImport) -> nat {
    counted(comment_count(p.sources_clasp@) + comment_count(p.sources_douban@))
}

fn comments_of_import(p: &PreparedImport) -> (r: usize)
    ensures
        r == import_comments(*p),
{
    let n: usize = count_comments(0, &p.sources_clasp);
    count_comments(n, &p.sources_douban)
}

/// What the import of book `id` came to.
pub fn import_result(id: i64, p: &PreparedImport) -> (r: ImportResultDto)
    ensures
        r.id == id,
        r.title == p.title,
        r.author == p.author,
        r.library_file == p.library_file,
        r.cover_path == p.cover_path,
        r.comments == import_comments(*p),
        r.fusion_model == p.fusion_model,
        r.fusion_error == p.fusion_error,
{
    ImportResultDto {
        id,
        title: p.title.clone(),
        author: p.author.clone(),
        library_file: p.library_file.clone(),
        cover_path: copy_opt(&p.cover_path),
        comments: comments_of_import(p),
        fusion_model: copy_opt(&p.fusion_model),
        fusion_error: copy_opt(&p.fusion_error),
    }
}

/// The first page of the review site that an import found.
#[derive(Debug)]
pub struct DoubanPreviewDto {
    pub title: Option<String>,
    pub author: Option<String>,
    pub cover_path: Option<String>,
    pub cover_url: Option<String>,
}

/// An import that waits to be confirmed, as it is shown.
#[derive(Debug)]
pub struct PreparedImportDto {
    pub task_id: String,
    pub title: String,
    pub author: String,
    pub tags: Vec<String>,
    pub description: String,
    pub fusion_model: Option<String>,
    pub fusion_error: Option<String>,
    pub cover_path: Option<String>,
    pub comments: usize,
    pub series_name: Option<String>,
    pub series_order: Option<i64>,
    pub douban_preview: Option<DoubanPreviewDto>,
}

/// Whether `d` shows the source `s`.
pub open spec fn shows_source(d: DoubanPreviewDto, s: PendingSource) -> bool {
    &&& d.title == s.title
    &&& d.author == s.author
    &&& d.cover_path == s.cover_path
    &&& d.cover_url == s.cover_url
}

/// An import that waits to be confirmed, as it is shown.
pub fn prepared_dto(task_id: &str, p: &PreparedImport) -> (r: PreparedImportDto)
    ensures
        r.task_id@ == task_id@,
        r.title == p.title,
        r.author == p.author,
        r.tags@ == p.tags@,
        r.description == p.description,
        r.fusion_model == p.fusion_model,
        r.fusion_error == p.fusion_error,
        r.cover_path == p.cover_path,
        r.comments == import_comments(*p),
        r.series_name == p.series_name,
        r.series_order == p.series_order,
        if p.sources_douban@.len() > 0 {
            r.douban_preview matches Some(d) && shows_source(d, p.sources_douban@[0])
        } else {
            r.douban_preview is None
        },
{
    let douban_preview = if p.sources_douban.len() > 0 {
        let s = &p.sources_douban[0];
        Some(
            DoubanPreviewDto {
                title: copy_opt(&s.title),
                author: copy_opt(&s.author),
                cover_path: copy_opt(&s.cover_path),
                cover_url: copy_opt(&s.cover_url),
            },
        )
    } else {
        None
    };
    PreparedImportDto {
        task_id: task_id.to_owned(),
        title: p.title.clone(),
        author: p.author.clone(),
        tags: clone_strings(&p.tags),
        description: p.description.clone(),
        fusion_model: copy_opt(&p.fusion_model),
        fusion_error: copy_opt(&p.fusion_error),
        cover_path: copy_opt(&p.cover_path),
        comments: comments_of_import(p),
        series_name: copy_opt(&p.series_name),
        series_order: p.series_order,
        douban_preview,
    }
}

/// The task under which an import is kept that was begun without one.
pub fn task_of(task_id: &Option<String>, now: u64) -> (r: String)
    ensures
        r@ == (match *task_id {
            Some(t) => t@,
            None => "prep-"@ + dec(now as nat),
        }),
{
    match task_id {
        Some(t) => t.as_str().to_owned(),
        None => "prep-".to_owned().concat(&dec_u64(now)),
    }
}

/// The title of a book that is imported.
pub fn import_title(title: &str) -> (r: Result<String, String>)
    ensures
        match r {
            Ok(t) => !is_blank(title@) && t@ == trim(title@),
            Err(e) => is_blank(title@) && e@ == "书名不能为空"@,
        },
{
    if blank(title) {
        Err("书名不能为空".to_owned())
    } else {
        Ok(trimmed(title))
    }
}

/// A series that was typed: none where it is blank.
pub open spec fn series_typed(name: Option<Seq<char>>) -> Option<Seq<char>> {
    match name {
        Some(n) => if is_blank(n) {
            None
        } else {
            Some(trim(n))
        },
        None => None,
    }
}

/// The volume that was typed: the first where there is none, and none without a series.
pub open spec fn volume_typed(name: Option<Seq<char>>, order: Option<i64>) -> Option<i64> {
    if series_typed(name) is None {
        None
    } else {
        match order {
            Some(o) => Some(o),
            None => Some(1),
        }
    }
}

/// The series and the volume that were typed.
pub fn typed_series(name: &Option<String>, order: Option<i64>) -> (r: (Option<String>, Option<i64>))
    ensures
        opt_str(r.0) == series_typed(opt_str(*name)),
        r.1 == volume_typed(opt_str(*name), order),
{
    match name {
        Some(n) => if blank(n) {
            (None, None)
        } else {
            match order {
                Some(o) => (Some(trimmed(n)), Some(o)),
                None => (Some(trimmed(n)), Some(1)),
            }
        },
        None => (None, None),
    }
}

/// What the user made of an import.
#[derive(Debug)]
pub struct ImportEdit {
    pub title: String,
    pub author: String,
    pub tags: Vec<String>,
    pub description: Option<String>,
    pub series_name: Option<String>,
    pub series_order: Option<i64>,
}

/// Makes of an import what the user did; the tags of the library stay.
pub fn apply_edit(p: &mut PreparedImport, e: &ImportEdit, fixed: &Vec<String>) -> (r: Result<
    (),
    String,
>)
    ensures
        match r {
            Ok(_) => {
                let q = *final(p);
                &&& !is_blank(e.title@)
                &&& q == (PreparedImport {
                    title: q.title,
                    author: q.author,
                    tags: q.tags,
                    description: q.description,
                    series_name: q.series_name,
                    series_order: q.series_order,
                    ..*old(p)
                })
                &&& q.title@ == trim(e.title@)
                &&& q.author@ == trim(e.author@)
                &&& strs(q.tags@) == with_all_new(tidy(strs(e.tags@)), strs(fixed@))
                &&& q.description@ == (match e.description {
                    Some(d) => d@,
                    None => ""@,
                })
                &&& opt_str(q.series_name) == series_typed(opt_str(e.series_name))
                &&& q.series_order == volume_typed(opt_str(e.series_name), e.series_order)
            },
            Err(t) => is_blank(e.title@) && t@ == "书名不能为空"@ && *final(p) == *old(p),
        },
{
    let title = match import_title(&e.title) {
        Ok(t) => t,
        Err(t) => {
            return Err(t);
        },
    };
    let mut tags = tidied(&e.tags);
    add_all_new(&mut tags, fixed);
    let (series_name, series_order) = typed_series(&e.series_name, e.series_order);
    p.title = title;
    p.author = trimmed(&e.author);
    p.tags = tags;
    p.description = match &e.description {
        Some(d) => d.as_str().to_owned(),
        None => "".to_owned(),
    };
    p.series_name = series_name;
    p.series_order = series_order;
    Ok(())
}

// ---- synchronising and reading ----

/// What a synchronisation did, as it is shown.
#[derive(Debug)]
pub struct WebDavSyncReportDto {
    pub total: usize,
    pub uploaded: usize,
    pub downloaded: usize,
    pub deleted: usize,
    pub skipped: usize,
    pub failed: usize,
    pub books_imported: usize,
    pub books_updated: usize,
    pub books_deleted: usize,
    pub errors: Vec<String>,
}

/// What a synchronisation did, as it is shown.
pub fn report_to_dto(r: SyncReport) -> (d: WebDavSyncReportDto)
    ensures
        d.total == r.total,
        d.uploaded == r.uploaded,
        d.downloaded == r.downloaded,
        d.deleted == r.deleted,
        d.skipped == r.skipped,
        d.failed == r.failed,
        d.books_imported == r.books_imported,
        d.books_updated == r.books_updated,
        d.books_deleted == r.books_deleted,
        d.errors == r.errors,
{
    WebDavSyncReportDto {
        total: r.total,
        uploaded: r.uploaded,
        downloaded: r.downloaded,
        deleted: r.deleted,
        skipped: r.skipped,
        failed: r.failed,
        books_imported: r.books_imported,
        books_updated: r.books_updated,
        books_deleted: r.books_deleted,
        errors: r.errors,
    }
}

/// What is answered where a synchronisation failed.
pub fn sync_failure(error: &str, push: bool) -> (r: String)
    ensures
        r@ == (if error@ == "已取消"@ {
            CANCELLED_MSG@
        } else if push {
            "同步到云端失败: "@ + error@
        } else {
            "从云端同步失败: "@ + error@
        }),
{
    if same(error, "已取消") {
        CANCELLED_MSG.to_owned()
    } else if push {
        "同步到云端失败: ".to_owned().concat(error)
    } else {
        "从云端同步失败: ".to_owned().concat(error)
    }
}

/// A chapter, as it is shown.
#[derive(Debug)]
pub struct ReaderChapterDto {
    pub title: String,
    pub html: String,
}

/// A book, as it is shown.
#[derive(Debug)]
pub struct ReaderContentDto {
    pub title: String,
    pub chapters: Vec<ReaderChapterDto>,
}

/// Whether `d` shows the chapter.
pub open spec fn shows_chapter(d: ReaderChapterDto, c: ReaderChapter) -> bool {
    d.title == c.title && d.html == c.html
}

/// A book, as it is shown.
pub fn content_to_dto(c: &ReaderContent) -> (r: ReaderContentDto)
    ensures
        r.title == c.title,
        r.chapters@.len() == c.chapters@.len(),
        forall|i: int|
            0 <= i < r.chapters@.len() ==> shows_chapter(#[trigger] r.chapters@[i], c.chapters@[i]),
{
    let mut chapters: Vec<ReaderChapterDto> = Vec::new();
    let mut i: usize = 0;
    while i < c.chapters.len()
        invariant
            i <= c.chapters@.len(),
            chapters@.len() == i,
            forall|k: int| 0 <= k < i ==> shows_chapter(#[trigger] chapters@[k], c.chapters@[k]),
        decreases c.chapters@.len() - i,
    {
        chapters.push(
            ReaderChapterDto {
                title: c.chapters[i].title.clone(),
                html: c.chapters[i].html.clone(),
            },
        );
        i += 1;
    }
    ReaderContentDto { title: c.title.clone(), chapters }
}

/// The comments of an import are those of all its sources: what is counted for two lists
/// together is what is counted for each.
pub proof fn comments_are_counted_together(a: Seq<PendingSource>, b: Seq<PendingSource>)
    ensures
        comment_count(a + b) == comment_count(a) + comment_count(b),
        b.len() == 1 ==> comment_count(b) == b[0].comments@.len(),
    decreases b.len(),
{
    if b.len() == 0 {
        assert(a + b =~= a);
    } else {
        assert((a + b).drop_last() =~= a + b.drop_last());
        assert((a + b).last() == b.last());
        comments_are_counted_together(a, b.drop_last());
        if b.len() == 1 {
            assert(comment_count(b.drop_last()) == 0);
        }
    }
}

/// The comments that an import brings are those of its entries and of its pages.
pub proof fn an_import_brings_all_comments(p: PreparedImport)
    requires
        comment_count(p.sources_clasp@ + p.sources_douban@) <= usize::MAX,
    ensures
        import_comments(p) == comment_count(p.sources_clasp@ + p.sources_douban@),
{
    comments_are_counted_together(p.sources_clasp@, p.sources_douban@);
}

/// A series that was typed counts without the white space at its ends, and a blank one not at
/// all; its volume is the one that was typed, else the first.
pub proof fn what_a_typed_series_is(name: Seq<char>, order: Option<i64>)
    ensures
        is_blank(name) ==> series_typed(Some(name)) is None && volume_typed(Some(name), order) is None,
        !is_blank(name) ==> series_typed(Some(name)) == Some(trim(name)),
        !is_blank(name) && order is Some ==> volume_typed(Some(name), order) == order,
        !is_blank(name) && order is None ==> volume_typed(Some(name), order) == Some(1i64),
        series_typed(None) is None && volume_typed(None, order) is None,
{
}

/// What is shown of a match, and what is taken of one that the user confirmed, is all that it
/// holds: what is shown of it and confirmed is the match again.
pub proof fn a_confirmed_match_is_the_one_shown(
    s: ClaspBookSuggestion,
    d: MatchDto,
    m: MatchInfo,
    c: SuggestionMatch,
)
    requires
        shows_match(d, s),
        is_confirmed(c, m),
        m.id == d.id && m.title == d.title && m.author == d.author && m.tags@ == d.tags@,
        m.cover_url == d.cover_url && m.summary == d.summary && m.douban_url == d.douban_url,
    ensures
        c.id == s.id,
        c.title == s.title,
        c.author == s.author_name,
        c.tags@ == s.tags@,
        c.cover_url == s.cover_url,
        c.summary == s.summary,
        c.douban_url == s.douban_url,
{
}

} // verus!
