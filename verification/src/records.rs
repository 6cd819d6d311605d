//! Recording imported books in the catalogue.
use vstd::prelude::*;
use vstd::string::*;

use crate::agent::TokenUsage;
use crate::config::{fixed_tag_list, fixed_tags};
use crate::covers::ref_added;
use crate::db::{
    enriched, first_of, new_book, opt_view, with_book, with_new_book, BookView, Catalog,
    CatalogView, CommentView, DbError, SourceRec, SourceRow, SourceView,
};
use crate::ingestion::{pending_views, PendingSource, PendingView, PreparedImport};
use crate::json::{json_of_strings, write_strings};
use crate::seqs::{filter_away, filter_push};
use crate::sources::{columns_synced, source_inserted, with_new_comment};
use crate::spider::{remarks, Comment, RemarkView};
use crate::text::{blank, clone_opt, is_blank, join, opt_str, same, strs, trim, trimmed};
use crate::usage::{usage_fits, usage_recorded};
use crate::utils::{join_tags, simplified, to_simplified};

verus! {

// ---- sources and their comments ----

/// A comment as it is recorded.
pub open spec fn recorded_comment(
    book: int,
    c: RemarkView,
    label: Seq<char>,
    ref_key: Seq<char>,
) -> CommentView {
    CommentView {
        book_id: book,
        id: 0,
        rating: c.rating,
        content: c.content,
        usefulness: c.usefulness as i32,
        source: label,
        is_mine: 0,
        source_ref: Some(ref_key),
    }
}

/// The catalogue with the comments of a source; one for which no identifier is left is
/// dropped.
pub open spec fn commented(
    c: CatalogView,
    book: int,
    comments: Seq<RemarkView>,
    label: Seq<char>,
    ref_key: Seq<char>,
) -> CatalogView
    decreases comments.len(),
{
    if comments.len() == 0 {
        c
    } else {
        let before = commented(c, book, comments.drop_last(), label, ref_key);
        if before.last_comment < i64::MAX {
            with_new_comment(before, recorded_comment(book, comments.last(), label, ref_key))
        } else {
            before
        }
    }
}

/// A source as it is recorded.
pub open spec fn recorded_source(book: int, kind: Seq<char>, position: int, s: PendingView) -> SourceView {
    let clasp = kind == "clasp"@;
    SourceView {
        id: 0,
        book_id: book,
        kind,
        ref_key: s.ref_key,
        position,
        title: s.title,
        author: s.author,
        cover_url: s.cover_url,
        cover_path: s.cover_path,
        summary: s.summary,
        tags: match s.tags {
            Some(t) => if clasp {
                Some(json_of_strings(t))
            } else {
                None
            },
            None => None,
        },
        series_name: match s.series {
            Some(p) => if clasp {
                Some(p.0)
            } else {
                None
            },
            None => None,
        },
        series_order: match s.series {
            Some(p) => if clasp {
                p.1
            } else {
                None
            },
            None => None,
        },
        editions: if clasp {
            s.editions
        } else {
            None
        },
    }
}

/// The catalogue with the sources of one kind and their comments.
pub open spec fn sources_recorded(
    c: CatalogView,
    book: int,
    kind: Seq<char>,
    label: Seq<char>,
    sources: Seq<PendingView>,
) -> CatalogView
    decreases sources.len(),
{
    if sources.len() == 0 {
        c
    } else {
        let s = sources.last();
        commented(
            source_inserted(
                sources_recorded(c, book, kind, label, sources.drop_last()),
                recorded_source(book, kind, sources.len() - 1, s),
            ),
            book,
            s.comments,
            label,
            s.ref_key,
        )
    }
}

/// The catalogue with the sources of a book.
pub open spec fn sources_kept(
    c: CatalogView,
    book: int,
    clasp: Seq<PendingView>,
    douban: Seq<PendingView>,
) -> CatalogView {
    columns_synced(
        sources_recorded(
            sources_recorded(c, book, "clasp"@, "claspclub"@, clasp),
            book,
            "douban"@,
            "豆瓣"@,
            douban,
        ),
        book,
    )
}

/// The catalogue with as many sources of a book as there are identifiers left.
pub open spec fn sources_up_to(
    c: CatalogView,
    book: int,
    clasp: Seq<PendingView>,
    douban: Seq<PendingView>,
) -> CatalogView {
    let room = i64::MAX - c.last_source;
    if clasp.len() > room {
        sources_recorded(c, book, "clasp"@, "claspclub"@, clasp.take(room))
    } else {
        sources_recorded(
            sources_recorded(c, book, "clasp"@, "claspclub"@, clasp),
            book,
            "douban"@,
            "豆瓣"@,
            douban.take(room - clasp.len()),
        )
    }
}

proof fn comments_add_no_source(
    c: CatalogView,
    book: int,
    comments: Seq<RemarkView>,
    label: Seq<char>,
    ref_key: Seq<char>,
)
    ensures
        commented(c, book, comments, label, ref_key).last_source == c.last_source,
        commented(c, book, comments, label, ref_key).last_book == c.last_book,
        commented(c, book, comments, label, ref_key).usage == c.usage,
    decreases comments.len(),
{
    if comments.len() > 0 {
        comments_add_no_source(c, book, comments.drop_last(), label, ref_key);
    }
}

proof fn sources_are_counted(
    c: CatalogView,
    book: int,
    kind: Seq<char>,
    label: Seq<char>,
    sources: Seq<PendingView>,
)
    ensures
        sources_recorded(c, book, kind, label, sources).last_source == c.last_source + sources.len(),
        sources_recorded(c, book, kind, label, sources).last_book == c.last_book,
        sources_recorded(c, book, kind, label, sources).usage == c.usage,
    decreases sources.len(),
{
    if sources.len() > 0 {
        sources_are_counted(c, book, kind, label, sources.drop_last());
        let s = sources.last();
        comments_add_no_source(
            source_inserted(
                sources_recorded(c, book, kind, label, sources.drop_last()),
                recorded_source(book, kind, sources.len() - 1, s),
            ),
            book,
            s.comments,
            label,
            s.ref_key,
        );
    }
}

fn row_of(s: &PendingSource, kind: &str, position: i64, book_id: i64) -> (r: SourceRow)
    ensures
        (SourceRec { id: 0, book_id, row: r })@ == recorded_source(
            book_id as int,
            kind@,
            position as int,
            s@,
        ),
{
    let clasp = same(kind, "clasp");
    let tags = match &s.tags {
        Some(t) => if clasp {
            Some(write_strings(t))
        } else {
            None
        },
        None => None,
    };
    let (series_name, series_order): (Option<String>, Option<i64>) = match &s.series {
        Some(p) => if clasp {
            (Some(p.0.as_str().to_owned()), p.1)
        } else {
            (None, None)
        },
        None => (None, None),
    };
    let editions = if clasp {
        clone_opt(&s.editions_json)
    } else {
        None
    };
    SourceRow {
        kind: kind.to_owned(),
        ref_key: s.ref_key.as_str().to_owned(),
        position,
        title: clone_opt(&s.title),
        author: clone_opt(&s.author),
        cover_url: clone_opt(&s.cover_url),
        cover_path: clone_opt(&s.cover_path),
        summary: clone_opt(&s.summary),
        tags,
        series_name,
        series_order,
        editions,
    }
}

impl Catalog {
    pub(crate) fn record_comments(&mut self, book_id: i64, comments: &Vec<Comment>, label: &str, ref_key: &str)
        requires
            old(self).wf(),
        ensures
            final(self).wf(),
            final(self)@ == commented(
                old(self)@,
                book_id as int,
                remarks(comments@),
                label@,
                ref_key@,
            ),
    {
        let ghost c = self@;
        let ghost all = remarks(comments@);
        let mut i: usize = 0;
        assert(all.take(0) =~= Seq::<RemarkView>::empty());
        while i < comments.len()
            invariant
                i <= comments@.len(),
                all == remarks(comments@),
                self.wf(),
                self@ == commented(c, book_id as int, all.take(i as int), label@, ref_key@),
            decreases comments@.len() - i,
        {
            assert(all.take(i + 1).drop_last() =~= all.take(i as int));
            assert(all.take(i + 1).last() == comments@[i as int]@);
            let ghost before = self@;
            let r = self.insert_comment(
                book_id,
                comments[i].rating,
                &comments[i].content,
                comments[i].usefulness,
                label,
                Some(ref_key),
            );
            assert(before.last_comment < i64::MAX ==> r is Ok);
            i += 1;
        }
        assert(all.take(comments@.len() as int) =~= all);
    }

    fn record_kind(
        &mut self,
        book_id: i64,
        kind: &str,
        label: &str,
        sources: &Vec<PendingSource>,
    ) -> (r: Result<(), DbError>)
        requires
            old(self).wf(),
            sources@.len() <= i64::MAX,
        ensures
            final(self).wf(),
            match r {
                Ok(_) => final(self)@ == sources_recorded(
                    old(self)@,
                    book_id as int,
                    kind@,
                    label@,
                    pending_views(sources@),
                ),
                Err(e) => e == DbError::Full && final(self)@ == sources_recorded(
                    old(self)@,
                    book_id as int,
                    kind@,
                    label@,
                    pending_views(sources@).take(i64::MAX - old(self).last_source),
                ),
            },
            r is Ok <==> old(self).last_source + sources@.len() <= i64::MAX || sources@.len() == 0,
    {
        let ghost c = self@;
        let ghost all = pending_views(sources@);
        let mut i: usize = 0;
        assert(all.take(0) =~= Seq::<PendingView>::empty());
        while i < sources.len()
            invariant
                i <= sources@.len(),
                sources@.len() <= i64::MAX,
                self.wf(),
                c == old(self)@,
                all == pending_views(sources@),
                self@ == sources_recorded(c, book_id as int, kind@, label@, all.take(i as int)),
                c.last_source + i <= i64::MAX || i == 0,
            decreases sources@.len() - i,
        {
            assert(all.take(i + 1).drop_last() =~= all.take(i as int));
            assert(all.take(i + 1).last() == sources@[i as int]@);
            proof {
                sources_are_counted(
                    c,
                    book_id as int,
                    kind@,
                    label@,
                    all.take(i as int),
                );
            }
            let row = row_of(&sources[i], kind, i as i64, book_id);
            match self.insert_source(book_id, row) {
                Ok(_) => {},
                Err(e) => {
                    assert(i == i64::MAX - c.last_source);
                    return Err(e);
                },
            }
            self.record_comments(book_id, &sources[i].comments, label, &sources[i].ref_key);
            i += 1;
        }
        assert(all.take(sources@.len() as int) =~= all);
        Ok(())
    }

    /// Records the sources of a book with their comments, and their references with the book.
    pub fn persist_sources(
        &mut self,
        book_id: i64,
        clasp: &Vec<PendingSource>,
        douban: &Vec<PendingSource>,
    ) -> (r: Result<(), DbError>)
        requires
            old(self).wf(),
            clasp@.len() <= i64::MAX,
            douban@.len() <= i64::MAX,
        ensures
            final(self).wf(),
            match r {
                Ok(_) => final(self)@ == sources_kept(
                    old(self)@,
                    book_id as int,
                    pending_views(clasp@),
                    pending_views(douban@),
                ),
                Err(e) => e == DbError::Full && final(self)@ == sources_up_to(
                    old(self)@,
                    book_id as int,
                    pending_views(clasp@),
                    pending_views(douban@),
                ),
            },
            r is Ok <==> old(self).last_source + clasp@.len() + douban@.len() <= i64::MAX
                || clasp@.len() + douban@.len() == 0,
    {
        match self.record_kind(book_id, "clasp", "claspclub", clasp) {
            Ok(_) => {},
            Err(e) => {
                return Err(e);
            },
        }
        proof {
            sources_are_counted(old(self)@, book_id as int, "clasp"@, "claspclub"@, pending_views(clasp@));
        }
        match self.record_kind(book_id, "douban", "豆瓣", douban) {
            Ok(_) => {},
            Err(e) => {
                return Err(e);
            },
        }
        self.sync_book_source_columns(book_id);
        Ok(())
    }
}

// ---- books ----

/// The tokens that were used, each recorded.
pub open spec fn tokens_recorded(
    c: CatalogView,
    used: Seq<(String, TokenUsage)>,
    now: Seq<char>,
) -> CatalogView
    decreases used.len(),
{
    if used.len() == 0 {
        c
    } else {
        let before = tokens_recorded(c, used.drop_last(), now);
        let (model, u) = used.last();
        CatalogView {
            usage: usage_recorded(
                before.usage,
                model@,
                u.prompt_tokens as int,
                u.completion_tokens as int,
                u.total_tokens as int,
                now,
            ),
            ..before
        }
    }
}

/// Whether the counts of tokens have room for the use at place `i`, once those before it are
/// recorded.
pub open spec fn tokens_fit_at(
    c: CatalogView,
    used: Seq<(String, TokenUsage)>,
    now: Seq<char>,
    i: int,
) -> bool {
    usage_fits(
        tokens_recorded(c, used.take(i), now).usage,
        used[i].0@,
        used[i].1.prompt_tokens as int,
        used[i].1.completion_tokens as int,
        used[i].1.total_tokens as int,
    )
}

/// Whether the counts of tokens have room for all that were used.
pub open spec fn tokens_fit(c: CatalogView, used: Seq<(String, TokenUsage)>, now: Seq<char>) -> bool {
    forall|i: int| 0 <= i < used.len() ==> #[trigger] tokens_fit_at(c, used, now, i)
}

/// Whether `d` is the catalogue with the tokens that were used before the first use for which
/// the counts have no room.
pub open spec fn tokens_up_to(
    c: CatalogView,
    used: Seq<(String, TokenUsage)>,
    now: Seq<char>,
    d: CatalogView,
) -> bool {
    exists|i: int|
        0 <= i < used.len() && !(#[trigger] tokens_fit_at(c, used, now, i)) && (forall|j: int|
            0 <= j < i ==> #[trigger] tokens_fit_at(c, used, now, j)) && d == tokens_recorded(
            c,
            used.take(i),
            now,
        )
}

/// The book of an import, without its identifier.
pub open spec fn imported_book(p: PreparedImport) -> BookView {
    new_book(
        p.title@,
        p.author@,
        join(strs(p.tags@), ", "@),
        p.original_path@,
        json_of_strings(strs(p.clasp_ids@)),
    )
}

/// The catalogue with the book of an import, before its sources.
pub open spec fn book_imported(c: CatalogView, p: PreparedImport, library: Option<Seq<char>>) -> CatalogView {
    let id = c.last_book + 1;
    let ids = json_of_strings(strs(p.clasp_ids@));
    let urls = json_of_strings(strs(p.douban_urls@));
    let c1 = with_new_book(c, imported_book(p));
    let c2 = with_book(
        c1,
        id,
        |b: BookView|
            enriched(
                b,
                if is_blank(p.description@) {
                    None
                } else {
                    Some(p.description@)
                },
                opt_str(p.cover_path),
                opt_str(p.series_name),
                p.series_order,
                Some(p.library_file@),
                Some(ids),
            ),
    );
    let c3 = with_book(
        c2,
        id,
        |b: BookView| BookView { clasp_ids: first_of(None, b.clasp_ids), douban_urls: Some(urls), ..b },
    );
    let c4 = match p.cover_path {
        Some(path) => CatalogView { covers: ref_added(c3.covers, path@), ..c3 },
        None => c3,
    };
    match library {
        Some(l) => with_book(c4, id, |b: BookView| BookView { library_id: Some(l), ..b }),
        None => c4,
    }
}

/// The catalogue with the book of an import, its cover, its library, its sources and the
/// tokens that it took.
pub open spec fn import_recorded(
    c: CatalogView,
    p: PreparedImport,
    library: Option<Seq<char>>,
    now: Seq<char>,
) -> CatalogView {
    tokens_recorded(
        sources_kept(
            book_imported(c, p, library),
            c.last_book + 1,
            pending_views(p.sources_clasp@),
            pending_views(p.sources_douban@),
        ),
        p.llm_usage@,
        now,
    )
}

fn as_opt<'a>(o: &'a Option<String>) -> (r: Option<&'a str>)
    ensures
        opt_view(r) == opt_str(*o),
{
    match o {
        Some(s) => Some(s.as_str()),
        None => None,
    }
}

impl Catalog {
    fn import_book(&mut self, p: &PreparedImport, library: Option<&str>) -> (r: Result<i64, DbError>)
        requires
            old(self).wf(),
        ensures
            final(self).wf(),
            match r {
                Ok(id) => id == old(self).last_book + 1 && final(self)@ == book_imported(
                    old(self)@,
                    *p,
                    opt_view(library),
                ),
                Err(e) => e == DbError::Full && old(self).last_book == i64::MAX && *final(self)
                    == *old(self),
            },
    {
        let ids = write_strings(&p.clasp_ids);
        let urls = write_strings(&p.douban_urls);
        let id: i64 = match self.insert_book(
            &p.title,
            &p.author,
            &join_tags(&p.tags),
            &p.original_path,
            &ids,
        ) {
            Ok(id) => id,
            Err(e) => {
                return Err(e);
            },
        };
        let ghost c1 = self@;
        assert(c1 == with_new_book(old(self)@, imported_book(*p)));
        let description = if blank(&p.description) {
            None
        } else {
            Some(p.description.as_str())
        };
        self.update_book_enrichment(
            id,
            description,
            as_opt(&p.cover_path),
            as_opt(&p.series_name),
            p.series_order,
            Some(p.library_file.as_str()),
            Some(ids.as_str()),
        );
        let ghost g2 = |b: BookView|
            enriched(
                b,
                opt_view(description),
                opt_str(p.cover_path),
                opt_str(p.series_name),
                p.series_order,
                Some(p.library_file@),
                Some(ids@),
            );
        let ghost f2 = |b: BookView|
            enriched(
                b,
                if is_blank(p.description@) {
                    None
                } else {
                    Some(p.description@)
                },
                opt_str(p.cover_path),
                opt_str(p.series_name),
                p.series_order,
                Some(p.library_file@),
                Some(json_of_strings(strs(p.clasp_ids@))),
            );
        assert(g2 =~= f2);
        let ghost c2 = with_book(c1, id as int, f2);
        assert(self@ == c2);
        self.set_book_match_urls(id, None, &urls);
        let ghost none: Option<&str> = None;
        let ghost g3 = |b: BookView|
            BookView {
                clasp_ids: first_of(opt_view(none), b.clasp_ids),
                douban_urls: Some(urls@),
                ..b
            };
        let ghost f3 = |b: BookView|
            BookView {
                clasp_ids: first_of(None, b.clasp_ids),
                douban_urls: Some(json_of_strings(strs(p.douban_urls@))),
                ..b
            };
        assert(g3 =~= f3);
        let ghost c3 = with_book(c2, id as int, f3);
        assert(self@ == c3);
        match &p.cover_path {
            Some(path) => {
                self.cover_ref_add(path);
            },
            None => {},
        }
        match library {
            Some(l) => {
                self.set_book_library(id, l);
            },
            None => {},
        }
        Ok(id)
    }

    /// Records an import: the book, its cover, its library, its sources and the tokens that
    /// it took. Answers the identifier of the book.
    pub fn persist_import(&mut self, p: &PreparedImport, library: Option<&str>, now: &str) -> (r: Result<
        i64,
        DbError,
    >)
        requires
            old(self).wf(),
            p.sources_clasp@.len() <= i64::MAX,
            p.sources_douban@.len() <= i64::MAX,
        ensures
            final(self).wf(),
            match r {
                Ok(id) => {
                    &&& id == old(self).last_book + 1
                    &&& final(self)@ == import_recorded(old(self)@, *p, opt_view(library), now@)
                },
                Err(DbError::Full) => if old(self).last_book == i64::MAX {
                    *final(self) == *old(self)
                } else {
                    &&& old(self).last_source + p.sources_clasp@.len() + p.sources_douban@.len()
                        > i64::MAX
                    &&& final(self)@ == sources_up_to(
                        book_imported(old(self)@, *p, opt_view(library)),
                        old(self).last_book + 1,
                        pending_views(p.sources_clasp@),
                        pending_views(p.sources_douban@),
                    )
                },
                Err(e) => e == DbError::Overflow && tokens_up_to(
                    sources_kept(
                        book_imported(old(self)@, *p, opt_view(library)),
                        old(self).last_book + 1,
                        pending_views(p.sources_clasp@),
                        pending_views(p.sources_douban@),
                    ),
                    p.llm_usage@,
                    now@,
                    final(self)@,
                ),
            },
    {
        let id: i64 = match self.import_book(p, library) {
            Ok(id) => id,
            Err(e) => {
                return Err(e);
            },
        };
        proof {
            assert(self@.last_source == old(self)@.last_source);
        }
        match self.persist_sources(id, &p.sources_clasp, &p.sources_douban) {
            Ok(_) => {},
            Err(e) => {
                return Err(e);
            },
        }
        let ghost c = self@;
        let ghost used = p.llm_usage@;
        let mut i: usize = 0;
        assert(used.take(0) =~= Seq::<(String, TokenUsage)>::empty());
        while i < p.llm_usage.len()
            invariant
                i <= p.llm_usage@.len(),
                used == p.llm_usage@,
                self.wf(),
                id == old(self).last_book + 1,
                c == sources_kept(
                    book_imported(old(self)@, *p, opt_view(library)),
                    old(self).last_book + 1,
                    pending_views(p.sources_clasp@),
                    pending_views(p.sources_douban@),
                ),
                self@ == tokens_recorded(c, used.take(i as int), now@),
                forall|j: int| 0 <= j < i ==> #[trigger] tokens_fit_at(c, used, now@, j),
            decreases p.llm_usage@.len() - i,
        {
            assert(used.take(i + 1).drop_last() =~= used.take(i as int));
            assert(used.take(i + 1).last() == used[i as int]);
            let u = p.llm_usage[i].1;
            if !self.usage_has_room(
                &p.llm_usage[i].0,
                u.prompt_tokens,
                u.completion_tokens,
                u.total_tokens,
            ) {
                assert(used[i as int].1 == u);
                assert(!tokens_fit_at(c, used, now@, i as int));
                return Err(DbError::Overflow);
            }
            self.record_llm_usage(
                &p.llm_usage[i].0,
                u.prompt_tokens,
                u.completion_tokens,
                u.total_tokens,
                now,
            );
            assert(tokens_fit_at(c, used, now@, i as int));
            i += 1;
        }
        assert(used.take(p.llm_usage@.len() as int) =~= used);
        Ok(id)
    }
}

// ---- books that the server has no record of ----

/// Whether a book has the file.
pub open spec fn has_file(c: CatalogView, file: Seq<char>) -> bool {
    exists|i: int| 0 <= i < c.books.len() && (#[trigger] c.books[i]).library_file == Some(file)
}

/// The title and the author of a book that was fetched: its own where it has them, else the
/// name of its file.
pub fn fetched_title_author(
    title: &Option<String>,
    author: &Option<String>,
    stem: &str,
) -> (r: (String, String))
    ensures
        r.0@ == (match *title {
            Some(t) => if is_blank(t@) {
                stem@
            } else {
                trim(t@)
            },
            None => stem@,
        }),
        r.1@ == (match *author {
            Some(a) => trim(a@),
            None => Seq::empty(),
        }),
{
    let t = match title {
        Some(t) => {
            let t = trimmed(t);
            if t.as_str().is_empty() {
                stem.to_owned()
            } else {
                t
            }
        },
        None => stem.to_owned(),
    };
    let a = match author {
        Some(a) => trimmed(a),
        None => String::new(),
    };
    (t, a)
}

/// The catalogue with a book that was fetched.
pub open spec fn fetched_recorded(
    c: CatalogView,
    library: Seq<char>,
    file: Seq<char>,
    title: Seq<char>,
    author: Seq<char>,
    tags: Seq<Seq<char>>,
) -> CatalogView {
    let id = c.last_book + 1;
    let c1 = with_new_book(
        c,
        new_book(
            simplified(title),
            simplified(author),
            join(fixed_tags(tags), ", "@),
            ""@,
            "[]"@,
        ),
    );
    let c2 = with_book(c1, id, |b: BookView| BookView { library_id: Some(library), ..b });
    with_book(
        c2,
        id,
        |b: BookView| enriched(b, None, None, None, None, Some(file), Some("[]"@)),
    )
}

impl Catalog {
    fn file_is_known(&self, file: &str) -> (r: bool)
        ensures
            r == has_file(self@, file@),
    {
        let mut i: usize = 0;
        while i < self.books.len()
            invariant
                i <= self.books@.len(),
                forall|j: int| 0 <= j < i ==> (#[trigger] self@.books[j]).library_file != Some(file@),
            decreases self.books@.len() - i,
        {
            assert(self@.books[i as int] == self.books@[i as int]@);
            match &self.books[i].library_file {
                Some(f) => {
                    if same(f, file) {
                        return true;
                    }
                },
                None => {},
            }
            i += 1;
        }
        false
    }

    /// Records a book that was fetched, where no book has its file yet. Answers whether it
    /// did.
    pub fn register_downloaded_epub(
        &mut self,
        library_id: &str,
        library_file: &str,
        title: &str,
        author: &str,
        default_tags: &Vec<String>,
    ) -> (r: Result<bool, DbError>)
        requires
            old(self).wf(),
        ensures
            final(self).wf(),
            match r {
                Ok(new) => {
                    &&& new == !has_file(old(self)@, library_file@)
                    &&& if new {
                        final(self)@ == fetched_recorded(
                            old(self)@,
                            library_id@,
                            library_file@,
                            title@,
                            author@,
                            strs(default_tags@),
                        )
                    } else {
                        *final(self) == *old(self)
                    }
                },
                Err(e) => {
                    &&& e == DbError::Full
                    &&& old(self).last_book == i64::MAX
                    &&& !has_file(old(self)@, library_file@)
                    &&& *final(self) == *old(self)
                },
            },
    {
        if self.file_is_known(library_file) {
            return Ok(false);
        }
        let title = to_simplified(title);
        let author = to_simplified(author);
        let tags = join_tags(&fixed_tag_list(default_tags));
        let id: i64 = match self.insert_book(&title, &author, &tags, "", "[]") {
            Ok(id) => id,
            Err(e) => {
                return Err(e);
            },
        };
        self.set_book_library(id, library_id);
        let ghost c2 = self@;
        self.update_book_enrichment(
            id,
            None,
            None,
            None,
            None,
            Some(library_file),
            Some("[]"),
        );
        proof {
            let none: Option<&str> = None;
            let g = |b: BookView|
                enriched(
                    b,
                    opt_view(none),
                    opt_view(none),
                    opt_view(none),
                    None,
                    opt_view(Some(library_file)),
                    opt_view(Some("[]")),
                );
            let f = |b: BookView|
                enriched(b, None, None, None, None, Some(library_file@), Some("[]"@));
            assert(g =~= f);
            assert(self@ == with_book(c2, id as int, g));
        }
        Ok(true)
    }
}

/// A book that was fetched and recorded is known by its file: recording it again changes
/// nothing.
pub proof fn fetched_book_is_known(
    c: CatalogView,
    library: Seq<char>,
    file: Seq<char>,
    title: Seq<char>,
    author: Seq<char>,
    tags: Seq<Seq<char>>,
)
    ensures
        has_file(fetched_recorded(c, library, file, title, author, tags), file),
{
    let after = fetched_recorded(c, library, file, title, author, tags);
    let k = c.books.len() as int;
    assert(after.books[k].library_file == Some(file));
}

/// An import adds one book, its sources and nothing to the other books. The book says where it
/// was taken from, and which file of the library holds it.
pub proof fn import_keeps_other_books(
    c: CatalogView,
    p: PreparedImport,
    library: Option<Seq<char>>,
    now: Seq<char>,
    i: int,
)
    requires
        0 <= i < c.books.len(),
        c.books[i].id != c.last_book + 1,
    ensures
        import_recorded(c, p, library, now).books.len() == c.books.len() + 1,
        import_recorded(c, p, library, now).books[i] == c.books[i],
        import_recorded(c, p, library, now).books.last().title == p.title@,
        import_recorded(c, p, library, now).books.last().file_path == Some(p.original_path@),
        import_recorded(c, p, library, now).books.last().library_file == Some(p.library_file@),
{
    let id = c.last_book + 1;
    let b = book_imported(c, p, library);
    assert(b.books.len() == c.books.len() + 1);
    assert(b.books[i] == c.books[i]);
    let n = b.books.last();
    assert(n.title == p.title@);
    assert(n.file_path == Some(p.original_path@));
    assert(n.library_file == Some(p.library_file@));
    let s1 = sources_recorded(b, id, "clasp"@, "claspclub"@, pending_views(p.sources_clasp@));
    sources_keep_books(b, id, "clasp"@, "claspclub"@, pending_views(p.sources_clasp@));
    sources_keep_books(s1, id, "douban"@, "豆瓣"@, pending_views(p.sources_douban@));
    let s2 = sources_kept(
        b,
        id,
        pending_views(p.sources_clasp@),
        pending_views(p.sources_douban@),
    );
    assert(s2.books[i] == c.books[i]);
    let m = s2.books.last();
    assert(m.title == n.title && m.file_path == n.file_path && m.library_file == n.library_file);
    tokens_keep_books(s2, p.llm_usage@, now);
}

/// Recording comments changes no book.
pub proof fn comments_keep_books(
    c: CatalogView,
    book: int,
    comments: Seq<RemarkView>,
    label: Seq<char>,
    ref_key: Seq<char>,
)
    ensures
        commented(c, book, comments, label, ref_key).books == c.books,
    decreases comments.len(),
{
    if comments.len() > 0 {
        comments_keep_books(c, book, comments.drop_last(), label, ref_key);
    }
}

/// Recording sources changes no book.
pub proof fn sources_keep_books(
    c: CatalogView,
    book: int,
    kind: Seq<char>,
    label: Seq<char>,
    sources: Seq<PendingView>,
)
    ensures
        sources_recorded(c, book, kind, label, sources).books == c.books,
    decreases sources.len(),
{
    if sources.len() > 0 {
        sources_keep_books(c, book, kind, label, sources.drop_last());
        let s = sources.last();
        comments_keep_books(
            source_inserted(
                sources_recorded(c, book, kind, label, sources.drop_last()),
                recorded_source(book, kind, sources.len() - 1, s),
            ),
            book,
            s.comments,
            label,
            s.ref_key,
        );
    }
}

proof fn tokens_keep_books(c: CatalogView, used: Seq<(String, TokenUsage)>, now: Seq<char>)
    ensures
        tokens_recorded(c, used, now).books == c.books,
    decreases used.len(),
{
    if used.len() > 0 {
        tokens_keep_books(c, used.drop_last(), now);
    }
}

/// What an import records of a book: the title, the author and the tags as they were settled,
/// the description where it is not blank, the cover, the series and the volume, the place it
/// was taken from, its file and its library. It is yet to be read, and nobody has reviewed it.
pub proof fn an_import_records_what_was_settled(
    c: CatalogView,
    p: PreparedImport,
    library: Option<Seq<char>>,
    now: Seq<char>,
)
    requires
        c.wf(),
    ensures
        ({
            let e = import_recorded(c, p, library, now);
            let b = e.books.last();
            &&& e.books.len() == c.books.len() + 1
            &&& b.id == c.last_book + 1
            &&& b.title == p.title@
            &&& b.author == Some(p.author@)
            &&& b.tags == Some(join(strs(p.tags@), ", "@))
            &&& b.description == (if is_blank(p.description@) {
                None
            } else {
                Some(p.description@)
            })
            &&& b.cover_path == opt_str(p.cover_path)
            &&& b.series_name == opt_str(p.series_name)
            &&& b.series_order == p.series_order
            &&& b.file_path == Some(p.original_path@)
            &&& b.library_file == Some(p.library_file@)
            &&& b.library_id == library
            &&& b.status == Some("想读"@)
            &&& b.my_review is None
            &&& b.finished_date is None
            &&& b.merged_from is None
        }),
{
    let id = c.last_book + 1;
    let b = book_imported(c, p, library);
    let n = b.books.last();
    assert(b.books.len() == c.books.len() + 1);
    assert(n.id == id);
    let s1 = sources_recorded(b, id, "clasp"@, "claspclub"@, pending_views(p.sources_clasp@));
    sources_keep_books(b, id, "clasp"@, "claspclub"@, pending_views(p.sources_clasp@));
    sources_keep_books(s1, id, "douban"@, "豆瓣"@, pending_views(p.sources_douban@));
    let s2 = sources_kept(
        b,
        id,
        pending_views(p.sources_clasp@),
        pending_views(p.sources_douban@),
    );
    let m = s2.books.last();
    assert(m.title == n.title);
    tokens_keep_books(s2, p.llm_usage@, now);
}

/// Whether `z` is the source `s` as number `i` of its kind: an entry has its tags, its series
/// and its editions with it, a page has none.
pub open spec fn is_recorded_source(z: SourceView, s: PendingView, kind: Seq<char>, i: int) -> bool {
    &&& z.kind == kind
    &&& z.position == i
    &&& z.ref_key == s.ref_key
    &&& z.title == s.title
    &&& z.author == s.author
    &&& z.cover_url == s.cover_url
    &&& z.cover_path == s.cover_path
    &&& z.summary == s.summary
    &&& kind == "clasp"@ ==> {
        &&& z.editions == s.editions
        &&& match s.tags {
            Some(t) => z.tags == Some(json_of_strings(t)),
            None => z.tags is None,
        }
        &&& match s.series {
            Some(p) => z.series_name == Some(p.0) && z.series_order == p.1,
            None => z.series_name is None && z.series_order is None,
        }
    }
    &&& kind != "clasp"@ ==> z.editions is None && z.tags is None && z.series_name is None
        && z.series_order is None
}

/// Whether `x` is the comment `k` of the source `s`, as it was fetched.
pub open spec fn is_recorded_comment(
    x: CommentView,
    book: int,
    s: PendingView,
    k: int,
    label: Seq<char>,
) -> bool {
    &&& x.book_id == book
    &&& x.rating == s.comments[k].rating
    &&& x.content == s.comments[k].content
    &&& x.usefulness == s.comments[k].usefulness as i32
    &&& x.source == label
    &&& x.is_mine == 0
    &&& x.source_ref == Some(s.ref_key)
}

/// Whether comment `k` of the source `s` is there.
pub open spec fn has_recorded_comment(
    v: Seq<CommentView>,
    book: int,
    s: PendingView,
    k: int,
    label: Seq<char>,
) -> bool {
    exists|m: int| 0 <= m < v.len() && is_recorded_comment(#[trigger] v[m], book, s, k, label)
}

/// Recording the comments of a source adds each of them, as long as there are identifiers, behind
/// those that are there, and changes no source.
pub proof fn comments_are_recorded(
    c: CatalogView,
    book: int,
    comments: Seq<RemarkView>,
    label: Seq<char>,
    s: PendingView,
)
    requires
        comments.is_prefix_of(s.comments),
    ensures
        ({
            let e = commented(c, book, comments, label, s.ref_key);
            &&& e.sources == c.sources
            &&& e.last_source == c.last_source
            &&& e.last_comment >= c.last_comment
            &&& c.comments.is_prefix_of(e.comments)
            &&& e.last_comment < i64::MAX ==> forall|k: int|
                0 <= k < comments.len() ==> #[trigger] has_recorded_comment(
                    e.comments,
                    book,
                    s,
                    k,
                    label,
                )
        }),
    decreases comments.len(),
{
    if comments.len() > 0 {
        let init = comments.drop_last();
        comments_are_recorded(c, book, init, label, s);
        let d = commented(c, book, init, label, s.ref_key);
        let e = commented(c, book, comments, label, s.ref_key);
        if e.last_comment < i64::MAX {
            assert forall|k: int| 0 <= k < comments.len() implies #[trigger] has_recorded_comment(
                e.comments,
                book,
                s,
                k,
                label,
            ) by {
                if k < init.len() {
                    assert(has_recorded_comment(d.comments, book, s, k, label));
                    let m = choose|m: int|
                        0 <= m < d.comments.len() && is_recorded_comment(
                            #[trigger] d.comments[m],
                            book,
                            s,
                            k,
                            label,
                        );
                    assert(e.comments[m] == d.comments[m]);
                } else {
                    let m = d.comments.len() as int;
                    assert(comments.last() == s.comments[k]);
                    assert(is_recorded_comment(e.comments[m], book, s, k, label));
                }
            }
        }
    }
}

/// Recording sources of a kind adds one row for each, in order and with its place, behind those
/// that the book has; and, as long as there are identifiers, each of their comments.
pub proof fn kind_is_recorded(
    c: CatalogView,
    book: int,
    kind: Seq<char>,
    label: Seq<char>,
    sources: Seq<PendingView>,
)
    ensures
        ({
            let e = sources_recorded(c, book, kind, label, sources);
            let f = |s: SourceView| s.book_id == book;
            let was = c.sources.filter(f);
            let now = e.sources.filter(f);
            &&& was.is_prefix_of(now)
            &&& now.len() == was.len() + sources.len()
            &&& forall|i: int|
                was.len() <= i < now.len() ==> is_recorded_source(
                    #[trigger] now[i],
                    sources[i - was.len()],
                    kind,
                    i - was.len(),
                )
            &&& c.comments.is_prefix_of(e.comments)
            &&& e.last_comment >= c.last_comment
            &&& e.last_comment < i64::MAX ==> forall|i: int, k: int|
                0 <= i < sources.len() && 0 <= k < sources[i].comments.len()
                    ==> #[trigger] has_recorded_comment(e.comments, book, sources[i], k, label)
        }),
    decreases sources.len(),
{
    if sources.len() > 0 {
        let init = sources.drop_last();
        kind_is_recorded(c, book, kind, label, init);
        let d = sources_recorded(c, book, kind, label, init);
        let e = sources_recorded(c, book, kind, label, sources);
        let s = sources.last();
        let row = recorded_source(book, kind, sources.len() - 1, s);
        let w = source_inserted(d, row);
        let f = |s: SourceView| s.book_id == book;
        filter_push(d.sources, SourceView { id: d.last_source + 1, ..row }, f);
        assert(s.comments.is_prefix_of(s.comments)) by {
            assert(s.comments.subrange(0, s.comments.len() as int) =~= s.comments);
        }
        comments_are_recorded(w, book, s.comments, label, s);
        let was = c.sources.filter(f);
        let now = e.sources.filter(f);
        let before = d.sources.filter(f);
        assert forall|i: int| was.len() <= i < now.len() implies is_recorded_source(
            #[trigger] now[i],
            sources[i - was.len()],
            kind,
            i - was.len(),
        ) by {
            if i < before.len() {
                assert(now[i] == before[i]);
                assert(init[i - was.len()] == sources[i - was.len()]);
            }
        }
        if e.last_comment < i64::MAX {
            assert forall|i: int, k: int|
                0 <= i < sources.len() && 0 <= k < sources[i].comments.len() implies #[trigger] has_recorded_comment(
            e.comments, book, sources[i], k, label) by {
                if i < init.len() {
                    assert(init[i] == sources[i]);
                    assert(has_recorded_comment(d.comments, book, init[i], k, label));
                    let m = choose|m: int|
                        0 <= m < d.comments.len() && is_recorded_comment(
                            #[trigger] d.comments[m],
                            book,
                            init[i],
                            k,
                            label,
                        );
                    assert(e.comments[m] == d.comments[m]);
                }
            }
        }
    }
}

/// What an import records beside the book: a source for each entry, in order, and behind these
/// one for each page, in order; and, as long as there are identifiers, each of their comments
/// under the name of its site. None of it is the reader's own.
pub proof fn an_import_records_its_sources(
    c: CatalogView,
    p: PreparedImport,
    library: Option<Seq<char>>,
    now: Seq<char>,
)
    requires
        c.wf(),
        forall|i: int| 0 <= i < c.sources.len() ==> (#[trigger] c.sources[i]).book_id <= c.last_book,
    ensures
        ({
            let e = import_recorded(c, p, library, now);
            let id = c.last_book + 1;
            let v = e.sources.filter(|s: SourceView| s.book_id == id);
            let entries = pending_views(p.sources_clasp@);
            let pages = pending_views(p.sources_douban@);
            &&& v.len() == entries.len() + pages.len()
            &&& forall|i: int|
                0 <= i < entries.len() ==> is_recorded_source(
                    #[trigger] v[i],
                    entries[i],
                    "clasp"@,
                    i,
                )
            &&& forall|i: int|
                entries.len() <= i < v.len() ==> is_recorded_source(
                    #[trigger] v[i],
                    pages[i - entries.len()],
                    "douban"@,
                    i - entries.len(),
                )
            &&& e.last_comment < i64::MAX ==> forall|i: int, k: int|
                0 <= i < entries.len() && 0 <= k < entries[i].comments.len()
                    ==> #[trigger] has_recorded_comment(
                    e.comments,
                    id,
                    entries[i],
                    k,
                    "claspclub"@,
                )
            &&& e.last_comment < i64::MAX ==> forall|i: int, k: int|
                0 <= i < pages.len() && 0 <= k < pages[i].comments.len()
                    ==> #[trigger] has_recorded_comment(e.comments, id, pages[i], k, "豆瓣"@)
        }),
{
    let id = c.last_book + 1;
    let b = book_imported(c, p, library);
    let entries = pending_views(p.sources_clasp@);
    let pages = pending_views(p.sources_douban@);
    let f = |s: SourceView| s.book_id == id;
    assert(b.sources == c.sources);
    filter_away(c.sources, f);
    let s1 = sources_recorded(b, id, "clasp"@, "claspclub"@, entries);
    kind_is_recorded(b, id, "clasp"@, "claspclub"@, entries);
    kind_is_recorded(s1, id, "douban"@, "豆瓣"@, pages);
    let s2 = sources_recorded(s1, id, "douban"@, "豆瓣"@, pages);
    let s3 = sources_kept(b, id, entries, pages);
    tokens_keep_rows(s3, p.llm_usage@, now);
    let e = import_recorded(c, p, library, now);
    let v = e.sources.filter(f);
    let first = s1.sources.filter(f);
    assert(e.sources == s2.sources && e.comments == s2.comments && e.last_comment
        == s2.last_comment);
    assert forall|i: int| 0 <= i < entries.len() implies is_recorded_source(
        #[trigger] v[i],
        entries[i],
        "clasp"@,
        i,
    ) by {
        assert(v[i] == first[i]);
    }
    if e.last_comment < i64::MAX {
        assert forall|i: int, k: int|
            0 <= i < entries.len() && 0 <= k < entries[i].comments.len() implies #[trigger] has_recorded_comment(
        e.comments, id, entries[i], k, "claspclub"@) by {
            assert(has_recorded_comment(s1.comments, id, entries[i], k, "claspclub"@));
            let m = choose|m: int|
                0 <= m < s1.comments.len() && is_recorded_comment(
                    #[trigger] s1.comments[m],
                    id,
                    entries[i],
                    k,
                    "claspclub"@,
                );
            assert(e.comments[m] == s1.comments[m]);
        }
    }
}

proof fn tokens_keep_rows(c: CatalogView, used: Seq<(String, TokenUsage)>, now: Seq<char>)
    ensures
        tokens_recorded(c, used, now) == (CatalogView {
            usage: tokens_recorded(c, used, now).usage,
            ..c
        }),
    decreases used.len(),
{
    if used.len() > 0 {
        tokens_keep_rows(c, used.drop_last(), now);
    }
}

/// A book that was fetched is recorded with its title and its author in simplified characters,
/// with the fixed tags, its file and its library; no other book changes.
pub proof fn a_fetched_book_is_recorded(
    c: CatalogView,
    library: Seq<char>,
    file: Seq<char>,
    title: Seq<char>,
    author: Seq<char>,
    tags: Seq<Seq<char>>,
)
    requires
        c.wf(),
    ensures
        ({
            let e = fetched_recorded(c, library, file, title, author, tags);
            let b = e.books.last();
            &&& e.books.len() == c.books.len() + 1
            &&& e.books.drop_last() == c.books
            &&& e.comments == c.comments
            &&& e.sources == c.sources
            &&& b.id == c.last_book + 1
            &&& b.title == simplified(title)
            &&& b.author == Some(simplified(author))
            &&& b.tags == Some(join(fixed_tags(tags), ", "@))
            &&& b.library_id == Some(library)
            &&& b.library_file == Some(file)
            &&& b.status == Some("想读"@)
            &&& b.description is None
            &&& b.cover_path is None
            &&& b.series_name is None
        }),
{
    let e = fetched_recorded(c, library, file, title, author, tags);
    assert forall|i: int| 0 <= i < c.books.len() implies #[trigger] e.books[i] == c.books[i] by {
        assert(c.books[i].id <= c.last_book);
    }
    assert(e.books.drop_last() =~= c.books);
}

} // verus!
