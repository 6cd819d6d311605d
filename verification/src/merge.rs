//! Merging several books into one.
use vstd::multiset::Multiset;
use vstd::prelude::*;
use vstd::string::*;

use crate::covers::{orphans_of, ref_added, release_keeps_rows, released_all};
use crate::db::{
    book_of, coalesce, enriched, new_book, opt_view, with_book, with_new_book, BookView, Catalog,
    CatalogView, CommentRec, CommentRow, CommentView, DbError, SourceRec, SourceRow, SourceView,
};
use crate::ingestion::{filled, keep_filled, pending_views, with_part, PendingSource, PendingView};
use crate::json::{json_of_ints, json_of_strings, read_strings, strings_of_json, write_ints, write_strings};
use crate::library::{file_name, to_ascii_filename};
use crate::queries::{comment_is, comment_key, comments_of, series_book_is, SeriesBook};
use crate::paths::{join_path, path_in, strip_slashes, stripped};
use crate::records::{
    is_recorded_source, kind_is_recorded, sources_keep_books, sources_kept, sources_recorded,
    sources_up_to,
};
use crate::seqs::{filter_away, filter_from, filter_narrows, map_push, places_keep_all};
use crate::sorting::{order_is_stable_sort, order_of};
use crate::sources::{book_paths, rows_deleted, source_is, sources_of, with_new_comment};
use crate::spider::{
    add_all_new, add_new, is_at, is_met_first, union_is_distinct, union_keeps_the_order, united,
    united_lists, with_all_new, RemarkView,
};
use crate::text::{
    blank, clone_opt, contains, dec, dec_i64, dec_int, dec_u64, has_part, is_blank, join, joined,
    lowercase, opt_str, parse_i64, parse_int, same, split, split_on, strs, strs_push, to_lower,
    trim, trimmed,
};
use crate::utils::{
    extension_of, html_title, join_tags, page_title, path_extension, split_tags, tags_in, tidy,
    tidy_keeps_what_is_not_blank,
};

verus! {

// ---- which books ----

/// The identifier that a text denotes.
pub open spec fn id_in(s: Seq<char>) -> Option<int> {
    match parse_int(trim(s)) {
        Some(n) => if i64::MIN <= n <= i64::MAX {
            Some(n)
        } else {
            None
        },
        None => None,
    }
}

/// Where the first text that denotes no identifier stands, from `i` on.
pub open spec fn bad_id(parts: Seq<Seq<char>>, i: int) -> Option<int>
    decreases parts.len() - i,
{
    if i < 0 || i >= parts.len() {
        None
    } else if id_in(parts[i]) is None {
        Some(i)
    } else {
        bad_id(parts, i + 1)
    }
}

/// The identifiers in a line, separated by commas; the first that is none is the error.
pub fn parse_ids(s: &str) -> (r: Result<Vec<i64>, String>)
    ensures
        ({
            let parts = split_on(s@, seq![',']);
            match r {
                Ok(v) => {
                    &&& bad_id(parts, 0) is None
                    &&& v@.len() == parts.len()
                    &&& forall|i: int|
                        0 <= i < v@.len() ==> id_in(parts[i]) == Some(#[trigger] v@[i] as int)
                },
                Err(e) => bad_id(parts, 0) matches Some(i) && e@ == "无效的书籍 ID: "@ + parts[i],
            }
        }),
{
    let mut comma: Vec<char> = Vec::new();
    comma.push(',');
    assert(comma@ =~= seq![',']);
    let parts = split(s, &comma);
    let ghost all = strs(parts@);
    let mut out: Vec<i64> = Vec::new();
    let mut i: usize = 0;
    while i < parts.len()
        invariant
            i <= parts@.len(),
            all == strs(parts@),
            all == split_on(s@, seq![',']),
            out@.len() == i,
            bad_id(all, 0) == bad_id(all, i as int),
            forall|k: int| 0 <= k < i ==> id_in(all[k]) == Some(#[trigger] out@[k] as int),
        decreases parts@.len() - i,
    {
        assert(all[i as int] == parts@[i as int]@);
        match parse_i64(&trimmed(&parts[i])) {
            Some(n) => {
                out.push(n);
            },
            None => {
                return Err("无效的书籍 ID: ".to_owned().concat(&parts[i]));
            },
        }
        i += 1;
    }
    Ok(out)
}

/// Whether there are enough books to merge.
pub fn enough_books(n: usize) -> (r: Result<(), String>)
    ensures
        match r {
            Ok(_) => n >= 2,
            Err(e) => n < 2 && e@ == "合并至少需要两本书。"@,
        },
{
    if n < 2 {
        Err("合并至少需要两本书。".to_owned())
    } else {
        Ok(())
    }
}

/// Where the first identifier that no book has stands, from `i` on.
pub open spec fn absent_id(books: Seq<BookView>, ids: Seq<i64>, i: int) -> Option<int>
    decreases ids.len() - i,
{
    if i < 0 || i >= ids.len() {
        None
    } else if book_of(books, ids[i] as int) is None {
        Some(i)
    } else {
        absent_id(books, ids, i + 1)
    }
}

/// Whether `v` shows the books with the identifiers.
pub open spec fn shows_books(v: Seq<SeriesBook>, books: Seq<BookView>, ids: Seq<i64>) -> bool {
    v.len() == ids.len() && forall|i: int|
        0 <= i < v.len() ==> shows_book(#[trigger] v[i], books, ids[i] as int)
}

/// Whether `r` shows the book with the identifier.
pub open spec fn shows_book(r: SeriesBook, books: Seq<BookView>, id: int) -> bool {
    book_of(books, id) matches Some(b) && series_book_is(r, b)
}

impl Catalog {
    /// The books with the identifiers; the first that no book has is the error.
    pub fn books_to_merge(&self, ids: &Vec<i64>) -> (r: Result<Vec<SeriesBook>, String>)
        requires
            self.wf(),
        ensures
            match r {
                Ok(v) => absent_id(self@.books, ids@, 0) is None && shows_books(
                    v@,
                    self@.books,
                    ids@,
                ),
                Err(e) => absent_id(self@.books, ids@, 0) matches Some(i) && e@
                    == "书籍不存在: id="@ + dec_int(ids@[i] as int),
            },
    {
        let mut out: Vec<SeriesBook> = Vec::new();
        let mut i: usize = 0;
        while i < ids.len()
            invariant
                i <= ids@.len(),
                self.wf(),
                out@.len() == i,
                absent_id(self@.books, ids@, 0) == absent_id(self@.books, ids@, i as int),
                forall|k: int|
                    0 <= k < i ==> shows_book(#[trigger] out@[k], self@.books, ids@[k] as int),
            decreases ids@.len() - i,
        {
            match self.get_book_full(ids[i]) {
                Some(b) => {
                    assert(shows_book(b, self@.books, ids@[i as int] as int));
                    out.push(b);
                },
                None => {
                    return Err("书籍不存在: id=".to_owned().concat(&dec_i64(ids[i])));
                },
            }
            i += 1;
        }
        Ok(out)
    }
}

/// Where the file of a book is: in the library, else where it was taken from.
pub open spec fn epub_place(lib: Seq<char>, library_file: Seq<char>, file_path: Seq<char>) -> Seq<char> {
    if library_file.len() > 0 {
        path_in(lib, library_file)
    } else {
        file_path
    }
}

/// Where the file of a book is: in the library, else where it was taken from.
pub fn epub_path(lib: &str, b: &SeriesBook) -> (r: String)
    ensures
        r@ == epub_place(lib@, b.library_file@, b.file_path@),
{
    if b.library_file.as_str().is_empty() {
        b.file_path.as_str().to_owned()
    } else {
        join_path(lib, &b.library_file)
    }
}

/// The text for a book whose file is missing.
pub fn missing_epub(path: &str, title: &str) -> (r: String)
    ensures
        r@ == "找不到 EPUB: "@ + path@ + "（书籍《"@ + title@ + "》）"@,
{
    "找不到 EPUB: ".to_owned().concat(path).concat("（书籍《").concat(title).concat("》）")
}

// ---- what the merged book is ----

/// The descriptions of the books: the recorded one, else the one in the file.
pub open spec fn merged_descriptions(
    recorded: Seq<Option<Seq<char>>>,
    in_files: Seq<Option<Seq<char>>>,
) -> Seq<Seq<char>>
    decreases recorded.len(),
{
    if recorded.len() == 0 {
        Seq::empty()
    } else {
        let before = merged_descriptions(recorded.drop_last(), in_files);
        let k = recorded.len() - 1;
        match filled(recorded.last()) {
            Some(d) => before.push(d),
            None => if k < in_files.len() && in_files[k] is Some {
                before.push(in_files[k]->0)
            } else {
                before
            },
        }
    }
}

/// The recorded descriptions of the books.
pub open spec fn recorded_descriptions(books: Seq<SeriesBook>) -> Seq<Option<Seq<char>>> {
    books.map_values(|b: SeriesBook| opt_str(b.description))
}

/// The texts, where there are any.
pub open spec fn opt_strs(v: Seq<Option<String>>) -> Seq<Option<Seq<char>>> {
    v.map_values(|o: Option<String>| opt_str(o))
}

/// The descriptions of the books: the recorded one, else the one in the file.
pub fn collect_descriptions(books: &Vec<SeriesBook>, in_files: &Vec<Option<String>>) -> (r: Vec<
    String,
>)
    ensures
        strs(r@) == merged_descriptions(recorded_descriptions(books@), opt_strs(in_files@)),
{
    let ghost rec = recorded_descriptions(books@);
    let ghost files = opt_strs(in_files@);
    let mut out: Vec<String> = Vec::new();
    let mut i: usize = 0;
    assert(rec.take(0) =~= Seq::<Option<Seq<char>>>::empty());
    assert(strs(out@) =~= merged_descriptions(rec.take(0), files));
    while i < books.len()
        invariant
            i <= books@.len(),
            rec == recorded_descriptions(books@),
            files == opt_strs(in_files@),
            strs(out@) == merged_descriptions(rec.take(i as int), files),
        decreases books@.len() - i,
    {
        assert(rec.take(i + 1).drop_last() =~= rec.take(i as int));
        assert(rec.take(i + 1).last() == opt_str(books@[i as int].description));
        let d = match keep_filled(&books[i].description) {
            Some(d) => Some(d),
            None => if i < in_files.len() {
                assert(files[i as int] == opt_str(in_files@[i as int]));
                clone_opt(&in_files[i])
            } else {
                None
            },
        };
        match d {
            Some(d) => {
                proof {
                    strs_push(out@, d);
                }
                out.push(d);
            },
            None => {},
        }
        i += 1;
    }
    assert(rec.take(books@.len() as int) =~= rec);
    out
}

/// The parts that are not blank, each once.
pub open spec fn with_parts(acc: Seq<Seq<char>>, parts: Seq<Seq<char>>) -> Seq<Seq<char>>
    decreases parts.len(),
{
    if parts.len() == 0 {
        acc
    } else {
        with_part(with_parts(acc, parts.drop_last()), Some(parts.last()))
    }
}

fn add_parts(acc: &mut Vec<String>, parts: &Vec<String>)
    ensures
        strs(final(acc)@) == with_parts(strs(old(acc)@), strs(parts@)),
{
    let ghost start = strs(acc@);
    let ghost all = strs(parts@);
    let mut i: usize = 0;
    assert(all.take(0) =~= Seq::<Seq<char>>::empty());
    while i < parts.len()
        invariant
            i <= parts@.len(),
            all == strs(parts@),
            strs(acc@) == with_parts(start, all.take(i as int)),
        decreases parts@.len() - i,
    {
        assert(all.take(i + 1).drop_last() =~= all.take(i as int));
        assert(all.take(i + 1).last() == parts@[i as int]@);
        let t = trimmed(&parts[i]);
        if !t.as_str().is_empty() {
            add_new(acc, &t);
        }
        i += 1;
    }
    assert(all.take(parts@.len() as int) =~= all);
}

/// The books with the identifiers of `v`.
pub open spec fn books_of(books: Seq<BookView>, v: Seq<SeriesBook>) -> Seq<BookView> {
    v.map_values(|b: SeriesBook| book_of(books, b.id as int)->0)
}

/// Whether every book is in the catalogue.
pub open spec fn all_known(books: Seq<BookView>, v: Seq<SeriesBook>) -> bool {
    forall|i: int| 0 <= i < v.len() ==> book_of(books, (#[trigger] v[i]).id as int) is Some
}

/// The authors of the books, each once.
pub open spec fn all_authors(v: Seq<BookView>) -> Seq<Seq<char>>
    decreases v.len(),
{
    if v.len() == 0 {
        Seq::empty()
    } else {
        with_parts(
            all_authors(v.drop_last()),
            split_on(coalesce(v.last().author, ""@), seq!['、', ',', '，']),
        )
    }
}

/// The tags of the books, each once.
pub open spec fn all_tags(v: Seq<BookView>) -> Seq<Seq<char>>
    decreases v.len(),
{
    if v.len() == 0 {
        Seq::empty()
    } else {
        with_all_new(all_tags(v.drop_last()), tags_in(coalesce(v.last().tags, ""@)))
    }
}

/// The entries of the books, each once.
pub open spec fn all_entries(v: Seq<BookView>) -> Seq<Seq<char>>
    decreases v.len(),
{
    if v.len() == 0 {
        Seq::empty()
    } else {
        let before = all_entries(v.drop_last());
        match v.last().clasp_ids {
            Some(json) => match strings_of_json(json) {
                Some(ids) => with_all_new(before, ids),
                None => before,
            },
            None => before,
        }
    }
}

/// How books are to be merged.
#[derive(Debug)]
pub struct MergePlan {
    pub books: Vec<SeriesBook>,
    /// Their files.
    pub sources: Vec<String>,
    pub title: String,
    pub author: String,
    pub tags: String,
    /// Their entries.
    pub clasp_union: Vec<String>,
    pub descriptions: Vec<String>,
}

fn author_marks() -> (r: Vec<char>)
    ensures
        r@ == seq!['、', ',', '，'],
{
    let mut v: Vec<char> = Vec::new();
    v.push('、');
    v.push(',');
    v.push('，');
    assert(v@ =~= seq!['、', ',', '，']);
    v
}

impl Catalog {
    /// How books are to be merged: the title of the first, and the authors, tags and entries
    /// of all.
    pub fn plan_merge(
        &self,
        books: Vec<SeriesBook>,
        sources: Vec<String>,
        in_files: &Vec<Option<String>>,
        fixed_tags: &Vec<String>,
    ) -> (r: Result<MergePlan, DbError>)
        requires
            self.wf(),
            books@.len() > 0,
        ensures
            match r {
                Ok(p) => {
                    let v = books_of(self@.books, books@);
                    &&& all_known(self@.books, books@)
                    &&& p.books == books
                    &&& p.sources == sources
                    &&& p.title@ == v[0].title + " 合集"@
                    &&& p.author@ == join(all_authors(v), "、"@)
                    &&& p.tags@ == join(with_all_new(all_tags(v), strs(fixed_tags@)), ", "@)
                    &&& strs(p.clasp_union@) == all_entries(v)
                    &&& strs(p.descriptions@) == merged_descriptions(
                        recorded_descriptions(books@),
                        opt_strs(in_files@),
                    )
                },
                Err(e) => e == DbError::NotFound && !all_known(self@.books, books@),
            },
    {
        let ghost c = self@.books;
        let ghost v = books_of(c, books@);
        let mut authors: Vec<String> = Vec::new();
        let mut tags: Vec<String> = Vec::new();
        let mut entries: Vec<String> = Vec::new();
        let mut title = String::new();
        let marks = author_marks();
        let mut i: usize = 0;
        proof {
            assert(v.take(0) =~= Seq::<BookView>::empty());
            assert(strs(authors@) =~= all_authors(v.take(0)));
            assert(strs(tags@) =~= all_tags(v.take(0)));
            assert(strs(entries@) =~= all_entries(v.take(0)));
        }
        while i < books.len()
            invariant
                i <= books@.len(),
                self.wf(),
                c == self@.books,
                v == books_of(c, books@),
                marks@ == seq!['、', ',', '，'],
                forall|k: int| 0 <= k < i ==> book_of(c, (#[trigger] books@[k]).id as int) is Some,
                i > 0 ==> title@ == v[0].title,
                strs(authors@) == all_authors(v.take(i as int)),
                strs(tags@) == all_tags(v.take(i as int)),
                strs(entries@) == all_entries(v.take(i as int)),
            decreases books@.len() - i,
        {
            assert(v.take(i + 1).drop_last() =~= v.take(i as int));
            assert(v.take(i + 1).last() == book_of(c, books@[i as int].id as int)->0);
            match self.get_book_meta(books[i].id) {
                Ok((t, a, g)) => {
                    if i == 0 {
                        title = t;
                    }
                    add_parts(&mut authors, &split(&a, &marks));
                    add_all_new(&mut tags, &split_tags(&g));
                },
                Err(e) => {
                    assert(book_of(c, books@[i as int].id as int) is None);
                    return Err(e);
                },
            }
            match self.get_book_detail(books[i].id) {
                Some(d) => match &d.clasp_ids {
                    Some(json) => match read_strings(json) {
                        Some(ids) => {
                            add_all_new(&mut entries, &ids);
                        },
                        None => {},
                    },
                    None => {},
                },
                None => {},
            }
            i += 1;
        }
        assert(v.take(books@.len() as int) =~= v);
        add_all_new(&mut tags, fixed_tags);
        let descriptions = collect_descriptions(&books, in_files);
        Ok(
            MergePlan {
                books,
                sources,
                title: title.concat(" 合集"),
                author: joined(&authors, "、"),
                tags: join_tags(&tags),
                clasp_union: entries,
                descriptions,
            },
        )
    }
}

/// The title of a merged book: what was typed, else that of the series, else that of the
/// first book.
pub fn merged_title(typed: &str, series: &Option<String>, first: &str) -> (r: String)
    ensures
        r@ == (if !is_blank(typed@) {
            typed@
        } else {
            match *series {
                Some(s) => s@,
                None => first@ + " 合集"@,
            }
        }),
{
    if !blank(typed) {
        typed.to_owned()
    } else {
        match series {
            Some(s) => s.as_str().to_owned(),
            None => first.to_owned().concat(" 合集"),
        }
    }
}

/// The author of a merged book: what was typed, else that of the first book.
pub fn merged_author(typed: &str, first: &str) -> (r: String)
    ensures
        r@ == (if is_blank(typed@) {
            first@
        } else {
            typed@
        }),
{
    if blank(typed) {
        first.to_owned()
    } else {
        typed.to_owned()
    }
}

/// The name of the file of a merged book.
pub fn merged_file_name(author: &str, title: &str) -> (r: String)
    ensures
        r@ == file_name(author@, title@ + " 合集"@, None),
{
    to_ascii_filename(author, &title.to_owned().concat(" 合集"), None)
}

/// The description of a merged book where no model made one: all of them.
pub fn joined_descriptions(descriptions: &Vec<String>) -> (r: String)
    ensures
        r@ == join(strs(descriptions@), "\n\n"@),
{
    joined(descriptions, "\n\n")
}

/// The description of a merged book: the one that was made, else the first.
pub open spec fn chosen_description(made: Option<Seq<char>>, all: Seq<Seq<char>>) -> Seq<char> {
    match made {
        Some(d) => d,
        None => if all.len() > 0 {
            all[0]
        } else {
            Seq::empty()
        },
    }
}

// ---- recording it ----

/// A source of a book as a source to record; its comments are recorded apart.
pub open spec fn pending_of(s: SourceView) -> PendingView {
    PendingView {
        ref_key: s.ref_key,
        title: s.title,
        author: s.author,
        cover_url: s.cover_url,
        cover_path: s.cover_path,
        summary: s.summary,
        tags: match s.tags {
            Some(j) => strings_of_json(j),
            None => None,
        },
        editions: s.editions,
        series: match s.series_name {
            Some(n) => Some((n, s.series_order)),
            None => None,
        },
        comments: Seq::empty(),
    }
}

/// A source of a book as a source to record; its comments are recorded apart.
pub fn source_row_to_pending(s: SourceRow) -> (r: PendingSource)
    ensures
        forall|v: SourceView| #[trigger] source_is(s, v) ==> r@ == pending_of(v),
        r.ref_key == s.ref_key,
        r.douban_url is None,
{
    let tags = match &s.tags {
        Some(j) => read_strings(j),
        None => None,
    };
    let order = s.series_order;
    let series = match s.series_name {
        Some(n) => Some((n, order)),
        None => None,
    };
    let r = PendingSource {
        ref_key: s.ref_key,
        title: s.title,
        author: s.author,
        cover_url: s.cover_url,
        cover_path: s.cover_path,
        summary: s.summary,
        tags,
        editions_json: s.editions,
        douban_url: None,
        series,
        comments: Vec::new(),
    };
    proof {
        assert(r@.comments =~= Seq::<RemarkView>::empty());
        assert forall|v: SourceView| #[trigger] source_is(s, v) implies r@ == pending_of(v) by {
            let w = (SourceRec { id: 0, book_id: 0, row: s })@;
            assert(w.ref_key == v.ref_key);
        }
    }
    r
}

/// Whether a source is a page of the review site.
pub open spec fn is_page(s: SourceView) -> bool {
    has_part(s.ref_key, "book.douban.com"@)
}

/// The sources of a book that are pages, or those that are not.
pub open spec fn pendings_of(rows: Seq<SourceView>, pages: bool) -> Seq<PendingView>
    decreases rows.len(),
{
    if rows.len() == 0 {
        Seq::empty()
    } else {
        let before = pendings_of(rows.drop_last(), pages);
        if is_page(rows.last()) == pages {
            before.push(pending_of(rows.last()))
        } else {
            before
        }
    }
}

/// The sources of the books that are pages, or those that are not, book by book.
pub open spec fn all_pendings(c: CatalogView, ids: Seq<i64>, pages: bool) -> Seq<PendingView>
    decreases ids.len(),
{
    if ids.len() == 0 {
        Seq::empty()
    } else {
        all_pendings(c, ids.drop_last(), pages) + pendings_of(
            sources_of(c.sources, ids.last() as int),
            pages,
        )
    }
}

/// A comment as another book's. One that the reader wrote stays the reader's.
pub open spec fn moved_comment(c: CommentView, book: int) -> CommentView {
    CommentView { book_id: book, id: 0, ..c }
}

/// The catalogue with copies of the comments for another book.
pub open spec fn comments_copied(c: CatalogView, rows: Seq<CommentView>, book: int) -> CatalogView
    decreases rows.len(),
{
    if rows.len() == 0 {
        c
    } else {
        with_new_comment(
            comments_copied(c, rows.drop_last(), book),
            moved_comment(rows.last(), book),
        )
    }
}

/// The catalogue with copies of the comments on the books for another book.
pub open spec fn all_comments_copied(c: CatalogView, ids: Seq<i64>, book: int) -> CatalogView
    decreases ids.len(),
{
    if ids.len() == 0 {
        c
    } else {
        let before = all_comments_copied(c, ids.drop_last(), book);
        comments_copied(before, comments_of(before.comments, ids.last() as int), book)
    }
}

/// The catalogue without the books.
pub open spec fn books_deleted(c: CatalogView, ids: Seq<i64>) -> CatalogView
    decreases ids.len(),
{
    if ids.len() == 0 {
        c
    } else {
        let before = books_deleted(c, ids.drop_last());
        let id = ids.last() as int;
        released_all(rows_deleted(before, id), book_paths(before, id))
    }
}

/// The cover files that nothing refers to once the books are out of the catalogue.
pub open spec fn covers_left(c: CatalogView, ids: Seq<i64>) -> Seq<Seq<char>>
    decreases ids.len(),
{
    if ids.len() == 0 {
        Seq::empty()
    } else {
        let before = books_deleted(c, ids.drop_last());
        let id = ids.last() as int;
        covers_left(c, ids.drop_last()) + orphans_of(
            rows_deleted(before, id),
            book_paths(before, id),
        )
    }
}

/// What a merged book is recorded with.
#[derive(Debug)]
pub struct MergedBook {
    pub title: String,
    pub author: String,
    pub tags: String,
    /// The file of the book.
    pub file_path: String,
    pub library_file: String,
    pub description: String,
    pub cover_path: Option<String>,
    /// The entries as JSON, where they are recorded.
    pub clasp_ids: Option<String>,
    /// The books that it was merged from.
    pub merged_from: Vec<i64>,
}

/// The catalogue with a merged book, before its sources.
pub open spec fn merged_recorded(c: CatalogView, m: MergedBook, library: Option<Seq<char>>) -> CatalogView {
    let id = c.last_book + 1;
    let json = match m.clasp_ids {
        Some(j) => j@,
        None => "[]"@,
    };
    let c1 = with_new_book(
        c,
        new_book(m.title@, m.author@, m.tags@, m.file_path@, json),
    );
    let c2 = with_book(
        c1,
        id,
        |b: BookView|
            enriched(
                b,
                if is_blank(m.description@) {
                    None
                } else {
                    Some(m.description@)
                },
                opt_str(m.cover_path),
                None,
                None,
                Some(m.library_file@),
                opt_str(m.clasp_ids),
            ),
    );
    let c3 = match m.cover_path {
        Some(p) => CatalogView { covers: ref_added(c2.covers, p@), ..c2 },
        None => c2,
    };
    let from = json_of_ints(m.merged_from@.map_values(|n: i64| n as int));
    let c4 = with_book(c3, id, |b: BookView| BookView { merged_from: Some(from), ..b });
    match library {
        Some(l) => with_book(c4, id, |b: BookView| BookView { library_id: Some(l), ..b }),
        None => c4,
    }
}

/// The catalogue once books are merged: the new book with the sources and comments of all,
/// and without the books.
pub open spec fn merge_applied(c: CatalogView, m: MergedBook, library: Option<Seq<char>>) -> CatalogView {
    let id = c.last_book + 1;
    let c1 = merged_recorded(c, m, library);
    let c2 = sources_kept(
        c1,
        id,
        all_pendings(c1, m.merged_from@, false),
        all_pendings(c1, m.merged_from@, true),
    );
    books_deleted(all_comments_copied(c2, m.merged_from@, id), m.merged_from@)
}

/// Whether a merge finds room for its rows.
pub open spec fn merge_fits(c: CatalogView, m: MergedBook, library: Option<Seq<char>>) -> bool {
    let id = c.last_book + 1;
    let c1 = merged_recorded(c, m, library);
    let clasp = all_pendings(c1, m.merged_from@, false);
    let douban = all_pendings(c1, m.merged_from@, true);
    let c2 = sources_kept(c1, id, clasp, douban);
    &&& c.last_book < i64::MAX
    &&& clasp.len() <= i64::MAX
    &&& douban.len() <= i64::MAX
    &&& c1.last_source + clasp.len() + douban.len() <= i64::MAX || clasp.len() + douban.len() == 0
    &&& all_comments_copied(c2, m.merged_from@, id).last_comment <= i64::MAX
}

/// The catalogue with as many of the comments on book `k` copied as there are identifiers left,
/// once those on the books before it are copied.
pub open spec fn copied_up_to(c: CatalogView, ids: Seq<i64>, k: int, book: int) -> CatalogView {
    let before = all_comments_copied(c, ids.take(k), book);
    comments_copied(
        before,
        comments_of(before.comments, ids[k] as int).take(i64::MAX - before.last_comment),
        book,
    )
}

/// Whether `d` is what a merge leaves that finds no room for its rows: what was recorded until
/// then, and no book taken out.
pub open spec fn merge_stopped(
    c: CatalogView,
    m: MergedBook,
    library: Option<Seq<char>>,
    d: CatalogView,
) -> bool {
    let id = c.last_book + 1;
    let c1 = merged_recorded(c, m, library);
    let clasp = all_pendings(c1, m.merged_from@, false);
    let douban = all_pendings(c1, m.merged_from@, true);
    if c.last_book == i64::MAX {
        d == c
    } else if clasp.len() > i64::MAX || douban.len() > i64::MAX {
        d == c1
    } else if c1.last_source + clasp.len() + douban.len() > i64::MAX && clasp.len() + douban.len()
        > 0 {
        d == sources_up_to(c1, id, clasp, douban)
    } else {
        exists|k: int|
            0 <= k < m.merged_from@.len() && d == #[trigger] copied_up_to(
                sources_kept(c1, id, clasp, douban),
                m.merged_from@,
                k,
                id,
            )
    }
}

/// Copying comments takes one identifier for each.
proof fn copies_are_counted(c: CatalogView, rows: Seq<CommentView>, book: int)
    ensures
        comments_copied(c, rows, book).last_comment == c.last_comment + rows.len(),
    decreases rows.len(),
{
    if rows.len() > 0 {
        copies_are_counted(c, rows.drop_last(), book);
    }
}

/// Copying the comments on more books takes no fewer identifiers.
proof fn copies_grow(c: CatalogView, ids: Seq<i64>, book: int, n: int)
    requires
        0 <= n <= ids.len(),
    ensures
        all_comments_copied(c, ids.take(n), book).last_comment <= all_comments_copied(
            c,
            ids,
            book,
        ).last_comment,
    decreases ids.len(),
{
    if n == ids.len() {
        assert(ids.take(n) =~= ids);
    } else {
        let less = ids.drop_last();
        copies_grow(c, less, book, n);
        assert(less.take(n) =~= ids.take(n));
        let before = all_comments_copied(c, less, book);
        copies_are_counted(before, comments_of(before.comments, ids.last() as int), book);
    }
}

fn as_opt<'a>(o: &'a Option<String>) -> (r: Option<&'a str>)
    ensures
        opt_view(r) == opt_str(*o),
{
    match o {
        Some(s) => Some(s.as_str()),
        None => None,
    }
}

impl Catalog {
    /// Records a merged book, before its sources. Answers its identifier.
    pub fn record_merged(&mut self, m: &MergedBook, library: Option<&str>) -> (r: Result<i64, DbError>)
        requires
            old(self).wf(),
        ensures
            final(self).wf(),
            match r {
                Ok(id) => id == old(self).last_book + 1 && final(self)@ == merged_recorded(
                    old(self)@,
                    *m,
                    opt_view(library),
                ),
                Err(e) => e == DbError::Full && old(self).last_book == i64::MAX && *final(self)
                    == *old(self),
            },
    {
        let json = match &m.clasp_ids {
            Some(j) => j.as_str().to_owned(),
            None => "[]".to_owned(),
        };
        let id: i64 = match self.insert_book(&m.title, &m.author, &m.tags, &m.file_path, &json) {
            Ok(id) => id,
            Err(e) => {
                return Err(e);
            },
        };
        let ghost c1 = self@;
        let description = if blank(&m.description) {
            None
        } else {
            Some(m.description.as_str())
        };
        self.update_book_enrichment(
            id,
            description,
            as_opt(&m.cover_path),
            None,
            None,
            Some(m.library_file.as_str()),
            as_opt(&m.clasp_ids),
        );
        proof {
            let none: Option<&str> = None;
            let g2 = |b: BookView|
                enriched(
                    b,
                    opt_view(description),
                    opt_str(m.cover_path),
                    opt_view(none),
                    None,
                    Some(m.library_file@),
                    opt_str(m.clasp_ids),
                );
            let f2 = |b: BookView|
                enriched(
                    b,
                    if is_blank(m.description@) {
                        None
                    } else {
                        Some(m.description@)
                    },
                    opt_str(m.cover_path),
                    None,
                    None,
                    Some(m.library_file@),
                    opt_str(m.clasp_ids),
                );
            assert(g2 =~= f2);
            assert(self@ == with_book(c1, id as int, g2));
        }
        match &m.cover_path {
            Some(p) => {
                self.cover_ref_add(p);
            },
            None => {},
        }
        self.set_merged_from(id, &write_ints(&m.merged_from));
        match library {
            Some(l) => {
                self.set_book_library(id, l);
            },
            None => {},
        }
        Ok(id)
    }

    fn collect_pendings(&self, ids: &Vec<i64>, pages: bool) -> (r: Vec<PendingSource>)
        ensures
            pending_views(r@) == all_pendings(self@, ids@, pages),
    {
        let mut out: Vec<PendingSource> = Vec::new();
        let mut i: usize = 0;
        assert(ids@.take(0) =~= Seq::<i64>::empty());
        assert(pending_views(out@) =~= all_pendings(self@, ids@.take(0), pages));
        while i < ids.len()
            invariant
                i <= ids@.len(),
                pending_views(out@) == all_pendings(self@, ids@.take(i as int), pages),
            decreases ids@.len() - i,
        {
            assert(ids@.take(i + 1).drop_last() =~= ids@.take(i as int));
            assert(ids@.take(i + 1).last() == ids@[i as int]);
            let ghost start = pending_views(out@);
            let ghost rows = sources_of(self@.sources, ids@[i as int] as int);
            let mut list = self.list_sources(ids[i]);
            let ghost all = list@;
            let n: usize = list.len();
            let mut k: usize = 0;
            assert(rows.take(0) =~= Seq::<SourceView>::empty());
            assert(start + pendings_of(rows.take(0), pages) =~= start);
            assert(list@ =~= all.skip(0));
            while k < n
                invariant
                    k <= n,
                    n == all.len(),
                    all.len() == rows.len(),
                    forall|j: int| 0 <= j < all.len() ==> source_is(#[trigger] all[j], rows[j]),
                    list@ == all.skip(k as int),
                    pending_views(out@) == start + pendings_of(rows.take(k as int), pages),
                decreases n - k,
            {
                assert(list@[0] == all[k as int]);
                assert(rows.take(k + 1).drop_last() =~= rows.take(k as int));
                assert(rows.take(k + 1).last() == rows[k as int]);
                let row = list.remove(0);
                proof {
                    assert(list@ =~= all.skip(k + 1));
                    assert(source_is(row, rows[k as int]));
                    assert((SourceRec { id: 0, book_id: 0, row })@.ref_key
                        == rows[k as int].ref_key);
                }
                let pending = source_row_to_pending(row);
                if contains(&pending.ref_key, "book.douban.com") == pages {
                    let ghost was = out@;
                    out.push(pending);
                    proof {
                        assert(pending_views(out@) =~= pending_views(was).push(pending@));
                        assert(start + pendings_of(rows.take(k as int), pages).push(
                            pending_of(rows[k as int]),
                        ) =~= (start + pendings_of(rows.take(k as int), pages)).push(
                            pending_of(rows[k as int]),
                        ));
                    }
                }
                k += 1;
            }
            assert(rows.take(n as int) =~= rows);
            i += 1;
        }
        assert(ids@.take(ids@.len() as int) =~= ids@);
        out
    }

    fn copy_comments(&mut self, from: i64, to: i64) -> (r: Result<(), DbError>)
        requires
            old(self).wf(),
        ensures
            final(self).wf(),
            match r {
                Ok(_) => final(self)@ == comments_copied(
                    old(self)@,
                    comments_of(old(self)@.comments, from as int),
                    to as int,
                ),
                Err(e) => e == DbError::Full && final(self)@ == comments_copied(
                    old(self)@,
                    comments_of(old(self)@.comments, from as int).take(
                        i64::MAX - old(self).last_comment,
                    ),
                    to as int,
                ),
            },
            r is Err ==> old(self).last_comment + comments_of(
                old(self)@.comments,
                from as int,
            ).len() > i64::MAX,
    {
        let ghost c = self@;
        let ghost rows = comments_of(c.comments, from as int);
        let list = self.get_comments_for_book(from);
        let mut i: usize = 0;
        assert(rows.take(0) =~= Seq::<CommentView>::empty());
        while i < list.len()
            invariant
                i <= list@.len(),
                list@.len() == rows.len(),
                forall|j: int| 0 <= j < list@.len() ==> comment_is(#[trigger] list@[j], rows[j]),
                self.wf(),
                c == old(self)@,
                rows == comments_of(old(self)@.comments, from as int),
                self@ == comments_copied(c, rows.take(i as int), to as int),
                self@.last_comment == c.last_comment + i,
            decreases list@.len() - i,
        {
            assert(rows.take(i + 1).drop_last() =~= rows.take(i as int));
            assert(rows.take(i + 1).last() == rows[i as int]);
            assert(comment_is(list@[i as int], rows[i as int]));
            if self.last_comment == i64::MAX {
                assert(i == i64::MAX - c.last_comment);
                return Err(DbError::Full);
            }
            let row = CommentRow {
                id: self.last_comment + 1,
                rating: list[i].rating,
                content: list[i].content.as_str().to_owned(),
                usefulness: list[i].usefulness,
                source: list[i].source.as_str().to_owned(),
                is_mine: list[i].is_mine,
                source_ref: clone_opt(&list[i].source_ref),
            };
            let copy = CommentRec { book_id: to, row };
            proof {
                let w = (CommentRec { book_id: 0, row: list@[i as int] })@;
                assert(w.content == rows[i as int].content);
                assert(with_new_comment(self@, copy@) == with_new_comment(
                    self@,
                    moved_comment(rows[i as int], to as int),
                ));
            }
            self.push_comment(copy);
            i += 1;
        }
        assert(rows.take(list@.len() as int) =~= rows);
        Ok(())
    }

    fn delete_books(&mut self, ids: &Vec<i64>) -> (r: Vec<String>)
        requires
            old(self).wf(),
        ensures
            final(self).wf(),
            final(self)@ == books_deleted(old(self)@, ids@),
            strs(r@) == covers_left(old(self)@, ids@),
    {
        let ghost c = self@;
        let mut out: Vec<String> = Vec::new();
        let mut i: usize = 0;
        assert(ids@.take(0) =~= Seq::<i64>::empty());
        assert(strs(out@) =~= covers_left(c, ids@.take(0)));
        while i < ids.len()
            invariant
                i <= ids@.len(),
                self.wf(),
                self@ == books_deleted(c, ids@.take(i as int)),
                strs(out@) == covers_left(c, ids@.take(i as int)),
            decreases ids@.len() - i,
        {
            assert(ids@.take(i + 1).drop_last() =~= ids@.take(i as int));
            assert(ids@.take(i + 1).last() == ids@[i as int]);
            let mut orphans = self.delete_book(ids[i]);
            let ghost a = out@;
            let ghost b = orphans@;
            out.append(&mut orphans);
            assert(strs(a + b) =~= strs(a) + strs(b));
            i += 1;
        }
        assert(ids@.take(ids@.len() as int) =~= ids@);
        out
    }

    /// Merges books: records the new one with the sources and comments of all, and takes the
    /// others out. Answers its identifier and the cover files that nothing refers to any
    /// more.
    pub fn apply_merge(&mut self, m: &MergedBook, library: Option<&str>) -> (r: Result<
        (i64, Vec<String>),
        DbError,
    >)
        requires
            old(self).wf(),
        ensures
            final(self).wf(),
            match r {
                Ok((id, orphans)) => {
                    let c1 = merged_recorded(old(self)@, *m, opt_view(library));
                    let c2 = sources_kept(
                        c1,
                        old(self).last_book + 1,
                        all_pendings(c1, m.merged_from@, false),
                        all_pendings(c1, m.merged_from@, true),
                    );
                    &&& id == old(self).last_book + 1
                    &&& final(self)@ == merge_applied(old(self)@, *m, opt_view(library))
                    &&& strs(orphans@) == covers_left(
                        all_comments_copied(c2, m.merged_from@, old(self).last_book + 1),
                        m.merged_from@,
                    )
                },
                Err(e) => {
                    &&& e == DbError::Full
                    &&& !merge_fits(old(self)@, *m, opt_view(library))
                    &&& merge_stopped(old(self)@, *m, opt_view(library), final(self)@)
                },
            },
            merge_fits(old(self)@, *m, opt_view(library)) ==> r is Ok,
    {
        let ghost start = self@;
        let ghost kept = opt_view(library);
        let id: i64 = match self.record_merged(m, library) {
            Ok(id) => id,
            Err(e) => {
                return Err(e);
            },
        };
        let clasp = self.collect_pendings(&m.merged_from, false);
        let douban = self.collect_pendings(&m.merged_from, true);
        assert(pending_views(clasp@).len() == clasp@.len());
        assert(pending_views(douban@).len() == douban@.len());
        if clasp.len() as u64 > i64::MAX as u64 || douban.len() as u64 > i64::MAX as u64 {
            return Err(DbError::Full);
        }
        match self.persist_sources(id, &clasp, &douban) {
            Ok(_) => {},
            Err(e) => {
                return Err(e);
            },
        }
        let ghost c2 = self@;
        let mut i: usize = 0;
        assert(m.merged_from@.take(0) =~= Seq::<i64>::empty());
        while i < m.merged_from.len()
            invariant
                i <= m.merged_from@.len(),
                self.wf(),
                id == start.last_book + 1,
                c2 == sources_kept(
                    merged_recorded(start, *m, kept),
                    id as int,
                    all_pendings(merged_recorded(start, *m, kept), m.merged_from@, false),
                    all_pendings(merged_recorded(start, *m, kept), m.merged_from@, true),
                ),
                start == old(self)@,
                kept == opt_view(library),
                start.last_book < i64::MAX,
                ({
                    let c1 = merged_recorded(start, *m, kept);
                    let a = all_pendings(c1, m.merged_from@, false).len();
                    let b = all_pendings(c1, m.merged_from@, true).len();
                    &&& a <= i64::MAX && b <= i64::MAX
                    &&& c1.last_source + a + b <= i64::MAX || a + b == 0
                }),
                self@ == all_comments_copied(c2, m.merged_from@.take(i as int), id as int),
            decreases m.merged_from@.len() - i,
        {
            assert(m.merged_from@.take(i + 1).drop_last() =~= m.merged_from@.take(i as int));
            assert(m.merged_from@.take(i + 1).last() == m.merged_from@[i as int]);
            let ghost before = self@;
            match self.copy_comments(m.merged_from[i], id) {
                Ok(_) => {},
                Err(e) => {
                    proof {
                        copies_are_counted(
                            before,
                            comments_of(before.comments, m.merged_from@[i as int] as int),
                            id as int,
                        );
                        copies_grow(c2, m.merged_from@, id as int, i + 1);
                        assert(self@ == copied_up_to(c2, m.merged_from@, i as int, id as int));
                    }
                    return Err(e);
                },
            }
            i += 1;
        }
        assert(m.merged_from@.take(m.merged_from@.len() as int) =~= m.merged_from@);
        let orphans = self.delete_books(&m.merged_from);
        Ok((id, orphans))
    }
}

/// What the merged book of a plan is recorded with.
pub fn merged_book(
    plan: &MergePlan,
    made: Option<String>,
    file_path: String,
    library_file: String,
    cover_path: Option<String>,
) -> (r: MergedBook)
    ensures
        r.title@ == plan.title@,
        r.author@ == plan.author@,
        r.tags@ == plan.tags@,
        r.file_path == file_path,
        r.library_file == library_file,
        r.description@ == chosen_description(opt_str(made), strs(plan.descriptions@)),
        r.cover_path == cover_path,
        opt_str(r.clasp_ids) == Some(json_of_strings(strs(plan.clasp_union@))),
        r.merged_from@ == plan.books@.map_values(|b: SeriesBook| b.id),
{
    let description = match made {
        Some(d) => d,
        None => if plan.descriptions.len() > 0 {
            assert(strs(plan.descriptions@)[0] == plan.descriptions@[0]@);
            plan.descriptions[0].as_str().to_owned()
        } else {
            String::new()
        },
    };
    let ghost want = plan.books@.map_values(|b: SeriesBook| b.id);
    let mut ids: Vec<i64> = Vec::new();
    let mut i: usize = 0;
    assert(ids@ =~= want.take(0));
    while i < plan.books.len()
        invariant
            i <= plan.books@.len(),
            want == plan.books@.map_values(|b: SeriesBook| b.id),
            ids@ == want.take(i as int),
        decreases plan.books@.len() - i,
    {
        ids.push(plan.books[i].id);
        i += 1;
        assert(ids@ =~= want.take(i as int));
    }
    assert(want.take(plan.books@.len() as int) =~= want);
    MergedBook {
        title: plan.title.as_str().to_owned(),
        author: plan.author.as_str().to_owned(),
        tags: plan.tags.as_str().to_owned(),
        file_path,
        library_file,
        description,
        cover_path,
        clasp_ids: Some(write_strings(&plan.clasp_union)),
        merged_from: ids,
    }
}

/// The files in the library of books that are taken out.
pub open spec fn files_of(books: Seq<BookView>, ids: Seq<i64>) -> Seq<Seq<char>>
    decreases ids.len(),
{
    if ids.len() == 0 {
        Seq::empty()
    } else {
        let before = files_of(books, ids.drop_last());
        match book_of(books, ids.last() as int) {
            Some(b) => match b.library_file {
                Some(f) => if f.len() > 0 {
                    before.push(f)
                } else {
                    before
                },
                None => before,
            },
            None => before,
        }
    }
}

impl Catalog {
    /// The files in the library of books that are taken out.
    pub fn merged_files(&self, ids: &Vec<i64>) -> (r: Vec<String>)
        requires
            self.wf(),
        ensures
            strs(r@) == files_of(self@.books, ids@),
    {
        let mut out: Vec<String> = Vec::new();
        let mut i: usize = 0;
        assert(ids@.take(0) =~= Seq::<i64>::empty());
        assert(strs(out@) =~= files_of(self@.books, ids@.take(0)));
        while i < ids.len()
            invariant
                i <= ids@.len(),
                self.wf(),
                strs(out@) == files_of(self@.books, ids@.take(i as int)),
            decreases ids@.len() - i,
        {
            assert(ids@.take(i + 1).drop_last() =~= ids@.take(i as int));
            assert(ids@.take(i + 1).last() == ids@[i as int]);
            match self.get_book_detail(ids[i]) {
                Some(d) => match d.library_file {
                    Some(f) => {
                        if !f.as_str().is_empty() {
                            proof {
                                strs_push(out@, f);
                            }
                            out.push(f);
                        }
                    },
                    None => {},
                },
                None => {},
            }
            i += 1;
        }
        assert(ids@.take(ids@.len() as int) =~= ids@);
        out
    }
}

/// The name of the copy of a cover for a merged book made at the second `now`.
pub open spec fn merged_cover(now: nat, cover: Seq<char>) -> Seq<char> {
    "merged-"@ + dec(now) + "."@ + lowercase(
        match path_extension(cover) {
            Some(e) => e,
            None => "jpg"@,
        },
    )
}

/// The name of the copy of a cover for a merged book made at the second `now`.
pub fn merged_cover_name(now: u64, cover: &str) -> (r: String)
    ensures
        r@ == merged_cover(now as nat, cover@),
{
    let ext = match extension_of(cover) {
        Some(e) => e,
        None => "jpg".to_owned(),
    };
    "merged-".to_owned().concat(&dec_u64(now)).concat(".").concat(&to_lower(&ext))
}

/// The name of the cover in a merged file, of the subtype of its media type.
pub fn cover_entry_name(subtype: &str) -> (r: String)
    ensures
        r@ == "cover."@ + (if subtype@ == "jpeg"@ {
            "jpg"@
        } else {
            subtype@
        }),
{
    if same(subtype, "jpeg") {
        "cover.".to_owned().concat("jpg")
    } else {
        "cover.".to_owned().concat(subtype)
    }
}

/// Where the resources of book `i` stand in a merged file.
pub open spec fn volume_dir(i: nat) -> Seq<char> {
    "b"@ + dec(i) + "/"@
}

/// Where the resources of book `i` stand in a merged file.
pub fn volume_prefix(i: u64) -> (r: String)
    ensures
        r@ == volume_dir(i as nat),
{
    "b".to_owned().concat(&dec_u64(i)).concat("/")
}

/// Where the resource `href` of book `i` stands in a merged file.
pub fn volume_href(i: u64, href: &str) -> (r: String)
    ensures
        r@ == volume_dir(i as nat) + strip_slashes(href@),
{
    volume_prefix(i).concat(&stripped(href))
}

/// `n`, with at least two digits.
pub open spec fn two_digits(n: nat) -> Seq<char> {
    if n < 10 {
        "0"@ + dec(n)
    } else {
        dec(n)
    }
}

/// The title of chapter `n`: that of its page, else its number.
pub fn chapter_title(page: &str, n: u64) -> (r: String)
    ensures
        r@ == (match page_title(page@) {
            Some(t) => t,
            None => two_digits(n as nat),
        }),
{
    match html_title(page) {
        Some(t) => t,
        None => if n < 10 {
            "0".to_owned().concat(&dec_u64(n))
        } else {
            dec_u64(n)
        },
    }
}

/// The line that shows a book that is to be merged.
pub fn volume_line(b: &SeriesBook) -> (r: String)
    ensures
        r@ == "  ["@ + dec_int(b.id as int) + "] 《"@ + b.title@ + "》"@ + (match b.series_order {
            Some(o) => " #"@ + dec_int(o as int),
            None => ""@,
        }),
{
    let head = "  [".to_owned().concat(&dec_i64(b.id)).concat("] 《").concat(&b.title).concat("》");
    match b.series_order {
        Some(o) => head.concat(&" #".to_owned().concat(&dec_i64(o))),
        None => head.concat(""),
    }
}

// ---- laws ----

proof fn copies_keep_books(c: CatalogView, rows: Seq<CommentView>, book: int)
    ensures
        comments_copied(c, rows, book).books == c.books,
    decreases rows.len(),
{
    if rows.len() > 0 {
        copies_keep_books(c, rows.drop_last(), book);
    }
}

proof fn all_copies_keep_books(c: CatalogView, ids: Seq<i64>, book: int)
    ensures
        all_comments_copied(c, ids, book).books == c.books,
    decreases ids.len(),
{
    if ids.len() > 0 {
        all_copies_keep_books(c, ids.drop_last(), book);
        let before = all_comments_copied(c, ids.drop_last(), book);
        copies_keep_books(before, comments_of(before.comments, ids.last() as int), book);
    }
}

/// Deleting books takes out those with the identifiers, and no other.
pub proof fn deleting_takes_out_the_named(c: CatalogView, ids: Seq<i64>, b: BookView)
    ensures
        books_deleted(c, ids).books.contains(b) <==> c.books.contains(b) && !exists|k: int|
            0 <= k < ids.len() && #[trigger] ids[k] == b.id,
    decreases ids.len(),
{
    if ids.len() > 0 {
        let less = ids.drop_last();
        let id = ids.last() as int;
        deleting_takes_out_the_named(c, less, b);
        let before = books_deleted(c, less);
        release_keeps_rows(
            rows_deleted(before, id),
            book_paths(before, id),
            book_paths(before, id).len(),
        );
        let keep = |x: BookView| x.id != id;
        let kept = before.books.filter(keep);
        assert(books_deleted(c, ids).books == kept);
        filter_from(before.books, keep);
        if before.books.contains(b) && b.id != id {
            let i = choose|i: int| 0 <= i < before.books.len() && before.books[i] == b;
            before.books.lemma_filter_contains(keep, i);
        }
        if kept.contains(b) {
            let i = choose|i: int| 0 <= i < kept.len() && kept[i] == b;
            assert(before.books.contains(kept[i]));
        }
        if exists|k: int| 0 <= k < less.len() && #[trigger] less[k] == b.id {
            let k = choose|k: int| 0 <= k < less.len() && #[trigger] less[k] == b.id;
            assert(ids[k] == b.id);
        }
        if exists|k: int| 0 <= k < ids.len() && #[trigger] ids[k] == b.id {
            let k = choose|k: int| 0 <= k < ids.len() && #[trigger] ids[k] == b.id;
            if k < less.len() {
                assert(less[k] == b.id);
            }
        }
        assert(ids[ids.len() - 1] == id);
    }
}

/// A merge takes out the books that it merged, leaves every other book as it was, and adds
/// the merged book with the title, author and tags that it was given.
pub proof fn merge_replaces_the_merged(c: CatalogView, m: MergedBook, library: Option<Seq<char>>, b: BookView)
    requires
        forall|i: int| 0 <= i < c.books.len() ==> (#[trigger] c.books[i]).id <= c.last_book,
        forall|k: int|
            0 <= k < m.merged_from@.len() ==> (#[trigger] m.merged_from@[k]) <= c.last_book,
        b.id <= c.last_book,
    ensures
        merge_applied(c, m, library).books.contains(b) <==> c.books.contains(b) && !exists|k: int|
            0 <= k < m.merged_from@.len() && #[trigger] m.merged_from@[k] == b.id,
        exists|n: BookView|
            {
                &&& #[trigger] merge_applied(c, m, library).books.contains(n)
                &&& n.id == c.last_book + 1
                &&& n.title == m.title@
                &&& n.author == Some(m.author@)
                &&& n.tags == Some(m.tags@)
                &&& n.library_file == Some(m.library_file@)
                &&& n.merged_from == Some(json_of_ints(m.merged_from@.map_values(|n: i64| n as int)))
            },
{
    let id = c.last_book + 1;
    let ids = m.merged_from@;
    let c1 = merged_recorded(c, m, library);
    let clasp = all_pendings(c1, ids, false);
    let douban = all_pendings(c1, ids, true);
    let mid = sources_recorded(c1, id, "clasp"@, "claspclub"@, clasp);
    sources_keep_books(c1, id, "clasp"@, "claspclub"@, clasp);
    sources_keep_books(mid, id, "douban"@, "豆瓣"@, douban);
    let c2 = sources_kept(c1, id, clasp, douban);
    let at = c.books.len() as int;
    assert(c1.books.len() == at + 1);
    assert forall|i: int| 0 <= i < at implies c1.books[i] == c.books[i] by {
        assert(c.books[i].id <= c.last_book);
    }
    assert(c2.books.len() == at + 1);
    assert forall|i: int| 0 <= i < at implies c2.books[i] == c.books[i] by {
        assert(c.books[i].id <= c.last_book);
    }
    let n = c2.books[at];
    assert(c2.books.contains(n));
    all_copies_keep_books(c2, ids, id);
    let c3 = all_comments_copied(c2, ids, id);
    deleting_takes_out_the_named(c3, ids, b);
    deleting_takes_out_the_named(c3, ids, n);
    assert(merge_applied(c, m, library).books.contains(n));
    if c.books.contains(b) {
        let i = choose|i: int| 0 <= i < at && c.books[i] == b;
        assert(c2.books[i] == b);
    }
    if c2.books.contains(b) {
        let i = choose|i: int| 0 <= i < c2.books.len() && c2.books[i] == b;
        assert(i < at);
        assert(c.books[i] == b);
    }
}

/// What a comment says, whichever book it is on.
pub open spec fn comment_body(x: CommentView) -> CommentView {
    CommentView { book_id: 0, id: 0, ..x }
}

/// What the comments on a book say, in the order in which they were recorded.
pub open spec fn bodies_under(v: Seq<CommentView>, book: int) -> Seq<CommentView> {
    v.filter(|x: CommentView| x.book_id == book).map_values(|x: CommentView| comment_body(x))
}

/// What the comments on the books say, book by book, as they are listed.
pub open spec fn bodies_listed(v: Seq<CommentView>, ids: Seq<i64>) -> Seq<CommentView>
    decreases ids.len(),
{
    if ids.len() == 0 {
        Seq::empty()
    } else {
        bodies_listed(v, ids.drop_last()) + comments_of(v, ids.last() as int).map_values(
            |x: CommentView| comment_body(x),
        )
    }
}

proof fn one_comment_more(v: Seq<CommentView>, x: CommentView, book: int)
    ensures
        x.book_id == book ==> bodies_under(v.push(x), book) == bodies_under(v, book).push(
            comment_body(x),
        ),
        x.book_id != book ==> bodies_under(v.push(x), book) == bodies_under(v, book),
        x.book_id != book ==> comments_of(v.push(x), book) == comments_of(v, book),
{
    let f = |c: CommentView| c.book_id == book;
    let g = |c: CommentView| comment_body(c);
    reveal(Seq::filter);
    assert(v.push(x).drop_last() =~= v);
    if x.book_id == book {
        map_push(v.filter(f), x, g);
    }
}

proof fn copies_say_the_same(c: CatalogView, rows: Seq<CommentView>, book: int, other: int)
    requires
        other != book,
    ensures
        bodies_under(comments_copied(c, rows, book).comments, book) == bodies_under(
            c.comments,
            book,
        ) + rows.map_values(|x: CommentView| comment_body(x)),
        comments_of(comments_copied(c, rows, book).comments, other) == comments_of(
            c.comments,
            other,
        ),
    decreases rows.len(),
{
    let g = |x: CommentView| comment_body(x);
    if rows.len() == 0 {
        assert(rows.map_values(g) =~= Seq::<CommentView>::empty());
        assert(bodies_under(c.comments, book) + rows.map_values(g) =~= bodies_under(
            c.comments,
            book,
        ));
    } else {
        let init = rows.drop_last();
        copies_say_the_same(c, init, book, other);
        let before = comments_copied(c, init, book);
        let x = CommentView {
            id: before.last_comment + 1,
            ..moved_comment(rows.last(), book)
        };
        one_comment_more(before.comments, x, book);
        one_comment_more(before.comments, x, other);
        assert(comment_body(x) == comment_body(rows.last()));
        map_push(init, rows.last(), g);
        assert(init.push(rows.last()) =~= rows);
        assert((bodies_under(c.comments, book) + init.map_values(g)).push(comment_body(rows.last()))
            =~= bodies_under(c.comments, book) + rows.map_values(g));
    }
}

proof fn all_copies_say_the_same(c: CatalogView, ids: Seq<i64>, book: int, other: int)
    requires
        other != book,
        forall|k: int| 0 <= k < ids.len() ==> (#[trigger] ids[k]) != book,
    ensures
        bodies_under(all_comments_copied(c, ids, book).comments, book) == bodies_under(
            c.comments,
            book,
        ) + bodies_listed(c.comments, ids),
        comments_of(all_comments_copied(c, ids, book).comments, other) == comments_of(
            c.comments,
            other,
        ),
    decreases ids.len(),
{
    if ids.len() == 0 {
        assert(bodies_under(c.comments, book) + bodies_listed(c.comments, ids) =~= bodies_under(
            c.comments,
            book,
        ));
    } else {
        let init = ids.drop_last();
        let last = ids.last() as int;
        assert forall|k: int| 0 <= k < init.len() implies (#[trigger] init[k]) != book by {
            assert(ids[k] != book);
        }
        assert(ids[ids.len() - 1] != book);
        all_copies_say_the_same(c, init, book, other);
        all_copies_say_the_same(c, init, book, last);
        let before = all_comments_copied(c, init, book);
        let rows = comments_of(before.comments, last);
        copies_say_the_same(before, rows, book, other);
        assert(bodies_under(c.comments, book) + bodies_listed(c.comments, init) + rows.map_values(
            |x: CommentView| comment_body(x),
        ) =~= bodies_under(c.comments, book) + bodies_listed(c.comments, ids));
    }
}

proof fn filter_of_filter(v: Seq<CommentView>, gone: int, book: int)
    requires
        gone != book,
    ensures
        bodies_under(v.filter(|x: CommentView| x.book_id != gone), book) == bodies_under(v, book),
    decreases v.len(),
{
    let keep = |x: CommentView| x.book_id != gone;
    reveal(Seq::filter);
    if v.len() > 0 {
        let init = v.drop_last();
        filter_of_filter(init, gone, book);
        assert(init.push(v.last()) =~= v);
        one_comment_more(init, v.last(), book);
        one_comment_more(init.filter(keep), v.last(), book);
    }
}

proof fn deleting_keeps_the_comments(c: CatalogView, ids: Seq<i64>, book: int)
    requires
        forall|k: int| 0 <= k < ids.len() ==> (#[trigger] ids[k]) != book,
    ensures
        bodies_under(books_deleted(c, ids).comments, book) == bodies_under(c.comments, book),
    decreases ids.len(),
{
    if ids.len() > 0 {
        let init = ids.drop_last();
        let id = ids.last() as int;
        assert forall|k: int| 0 <= k < init.len() implies (#[trigger] init[k]) != book by {
            assert(ids[k] != book);
        }
        assert(ids[ids.len() - 1] != book);
        deleting_keeps_the_comments(c, init, book);
        let before = books_deleted(c, init);
        release_keeps_rows(
            rows_deleted(before, id),
            book_paths(before, id),
            book_paths(before, id).len(),
        );
        filter_of_filter(before.comments, id, book);
    }
}

proof fn pendings_bring_no_comments(c: CatalogView, ids: Seq<i64>, pages: bool)
    ensures
        forall|i: int|
            0 <= i < all_pendings(c, ids, pages).len() ==> (#[trigger] all_pendings(
                c,
                ids,
                pages,
            )[i]).comments.len() == 0,
    decreases ids.len(),
{
    if ids.len() > 0 {
        pendings_bring_no_comments(c, ids.drop_last(), pages);
        rows_bring_no_comments(sources_of(c.sources, ids.last() as int), pages);
    }
}

proof fn rows_bring_no_comments(rows: Seq<SourceView>, pages: bool)
    ensures
        forall|i: int|
            0 <= i < pendings_of(rows, pages).len() ==> (#[trigger] pendings_of(
                rows,
                pages,
            )[i]).comments.len() == 0,
    decreases rows.len(),
{
    if rows.len() > 0 {
        rows_bring_no_comments(rows.drop_last(), pages);
    }
}

proof fn sources_add_no_comments(
    c: CatalogView,
    book: int,
    kind: Seq<char>,
    label: Seq<char>,
    sources: Seq<PendingView>,
)
    requires
        forall|i: int| 0 <= i < sources.len() ==> (#[trigger] sources[i]).comments.len() == 0,
    ensures
        sources_recorded(c, book, kind, label, sources).comments == c.comments,
    decreases sources.len(),
{
    if sources.len() > 0 {
        let init = sources.drop_last();
        assert forall|i: int| 0 <= i < init.len() implies (#[trigger] init[i]).comments.len()
            == 0 by {
            assert(sources[i].comments.len() == 0);
        }
        assert(sources[sources.len() - 1].comments.len() == 0);
        sources_add_no_comments(c, book, kind, label, init);
    }
}

/// What the comments on the books say, in no order.
pub open spec fn bodies_held(v: Seq<CommentView>, ids: Seq<i64>) -> Multiset<CommentView>
    decreases ids.len(),
{
    if ids.len() == 0 {
        Multiset::empty()
    } else {
        bodies_held(v, ids.drop_last()).add(bodies_under(v, ids.last() as int).to_multiset())
    }
}

proof fn listing_holds_all(v: Seq<CommentView>, ids: Seq<i64>)
    ensures
        bodies_listed(v, ids).to_multiset() == bodies_held(v, ids),
    decreases ids.len(),
{
    broadcast use vstd::seq_lib::group_to_multiset_ensures;

    if ids.len() == 0 {
        assert(bodies_listed(v, ids).to_multiset() =~= Multiset::empty());
    } else {
        let init = ids.drop_last();
        let book = ids.last() as int;
        let g = |x: CommentView| comment_body(x);
        let key = |c: CommentView| comment_key(c);
        let on = v.filter(|c: CommentView| c.book_id == book);
        let o = order_of(on.map_values(key));
        listing_holds_all(v, init);
        order_is_stable_sort(on.map_values(key));
        let said = bodies_under(v, book);
        assert(said == on.map_values(g));
        places_keep_all(said, o);
        let listed = comments_of(v, book).map_values(g);
        assert(listed =~= o.map_values(|i: int| said[i]));
        vstd::seq_lib::lemma_multiset_commutative(bodies_listed(v, init), listed);
    }
}

/// A merged book gets the comments on the books that it was merged from, book by book, and no
/// other, so that it has just these where no comment named it before. What the reader wrote
/// stays the reader's.
pub proof fn merged_book_has_the_comments(c: CatalogView, m: MergedBook, library: Option<Seq<char>>)
    requires
        forall|k: int|
            0 <= k < m.merged_from@.len() ==> (#[trigger] m.merged_from@[k]) <= c.last_book,
    ensures
        bodies_under(merge_applied(c, m, library).comments, c.last_book + 1) == bodies_under(
            c.comments,
            c.last_book + 1,
        ) + bodies_listed(c.comments, m.merged_from@),
        bodies_listed(c.comments, m.merged_from@).to_multiset() == bodies_held(
            c.comments,
            m.merged_from@,
        ),
        bodies_under(c.comments, c.last_book + 1).len() == 0 ==> {
            let has = bodies_under(merge_applied(c, m, library).comments, c.last_book + 1);
            &&& has == bodies_listed(c.comments, m.merged_from@)
            &&& has.to_multiset() == bodies_held(c.comments, m.merged_from@)
        },
{
    listing_holds_all(c.comments, m.merged_from@);
    let id = c.last_book + 1;
    let ids = m.merged_from@;
    let c1 = merged_recorded(c, m, library);
    assert(c1.comments == c.comments);
    let clasp = all_pendings(c1, ids, false);
    let douban = all_pendings(c1, ids, true);
    pendings_bring_no_comments(c1, ids, false);
    pendings_bring_no_comments(c1, ids, true);
    let mid = sources_recorded(c1, id, "clasp"@, "claspclub"@, clasp);
    sources_add_no_comments(c1, id, "clasp"@, "claspclub"@, clasp);
    sources_add_no_comments(mid, id, "douban"@, "豆瓣"@, douban);
    let c2 = sources_kept(c1, id, clasp, douban);
    assert(c2.comments == c.comments);
    assert forall|k: int| 0 <= k < ids.len() implies (#[trigger] ids[k]) != id by {
        assert(ids[k] <= c.last_book);
    }
    all_copies_say_the_same(c2, ids, id, id - 1);
    let c3 = all_comments_copied(c2, ids, id);
    deleting_keeps_the_comments(c3, ids, id);
    if bodies_under(c.comments, id).len() == 0 {
        assert(bodies_under(c.comments, id) + bodies_listed(c.comments, ids) =~= bodies_listed(
            c.comments,
            ids,
        ));
    }
}

// ---- what the books bring into the merged one ----

/// Whether `x` is part `k` of what book `i` names as its authors, between `、` and commas of
/// either form, without the white space around it, and not blank.
pub open spec fn names_author(v: Seq<BookView>, i: int, k: int, x: Seq<char>) -> bool {
    let parts = split_on(
        match v[i].author {
            Some(a) => a,
            None => Seq::empty(),
        },
        seq!['、', ',', '，'],
    );
    0 <= i < v.len() && 0 <= k < parts.len() && !is_blank(parts[k]) && trim(parts[k]) == x
}

/// Whether the author `x` is named before `y` is, book by book.
pub open spec fn author_met_first(v: Seq<BookView>, x: Seq<char>, y: Seq<char>) -> bool {
    exists|i: int, k: int| #[trigger]
        names_author(v, i, k, x) && forall|j: int, m: int| #[trigger]
            names_author(v, j, m, y) ==> i < j || i == j && k < m
}

/// Whether `x` is part `k` of the tags of book `i`, between commas of either form, without the
/// white space around it, and not blank.
pub open spec fn names_tag(v: Seq<BookView>, i: int, k: int, x: Seq<char>) -> bool {
    let parts = split_on(
        match v[i].tags {
            Some(a) => a,
            None => Seq::empty(),
        },
        seq![',', '，'],
    );
    0 <= i < v.len() && 0 <= k < parts.len() && !is_blank(parts[k]) && trim(parts[k]) == x
}

/// Whether `x` is number `k` of the entries of book `i`.
pub open spec fn names_entry(v: Seq<BookView>, i: int, k: int, x: Seq<char>) -> bool {
    0 <= i < v.len() && (v[i].clasp_ids matches Some(json) && strings_of_json(json) matches Some(
        ids,
    ) && 0 <= k < ids.len() && ids[k] == x)
}

/// Whether the entry `x` is named before `y` is, book by book.
pub open spec fn entry_met_first(v: Seq<BookView>, x: Seq<char>, y: Seq<char>) -> bool {
    exists|i: int, k: int| #[trigger]
        names_entry(v, i, k, x) && forall|j: int, m: int| #[trigger]
            names_entry(v, j, m, y) ==> i < j || i == j && k < m
}

spec fn author_lists(v: Seq<BookView>) -> Seq<Seq<Seq<char>>> {
    Seq::new(
        v.len(),
        |i: int| tidy(split_on(coalesce(v[i].author, ""@), seq!['、', ',', '，'])),
    )
}

spec fn tag_lists(v: Seq<BookView>) -> Seq<Seq<Seq<char>>> {
    Seq::new(v.len(), |i: int| tags_in(coalesce(v[i].tags, ""@)))
}

spec fn entry_lists(v: Seq<BookView>) -> Seq<Seq<Seq<char>>> {
    Seq::new(
        v.len(),
        |i: int|
            match v[i].clasp_ids {
                Some(json) => match strings_of_json(json) {
                    Some(ids) => ids,
                    None => Seq::empty(),
                },
                None => Seq::empty(),
            },
    )
}

proof fn parts_are_tidied(acc: Seq<Seq<char>>, parts: Seq<Seq<char>>)
    ensures
        with_parts(acc, parts) == with_all_new(acc, tidy(parts)),
    decreases parts.len(),
{
    if parts.len() > 0 {
        parts_are_tidied(acc, parts.drop_last());
        if !is_blank(parts.last()) {
            let t = tidy(parts.drop_last());
            assert(t.push(trim(parts.last())).drop_last() =~= t);
        }
    }
}

proof fn lists_of_books(v: Seq<BookView>)
    ensures
        all_authors(v) == united(author_lists(v)),
        all_tags(v) == united(tag_lists(v)),
        all_entries(v) == united(entry_lists(v)),
    decreases v.len(),
{
    if v.len() > 0 {
        let init = v.drop_last();
        lists_of_books(init);
        assert(author_lists(v).drop_last() =~= author_lists(init));
        assert(tag_lists(v).drop_last() =~= tag_lists(init));
        assert(entry_lists(v).drop_last() =~= entry_lists(init));
        parts_are_tidied(
            all_authors(init),
            split_on(coalesce(v.last().author, ""@), seq!['、', ',', '，']),
        );
    }
}

/// Where a tidied part stood, and where it went.
proof fn tidied_at(lists: Seq<Seq<Seq<char>>>, i: int, parts: Seq<Seq<char>>) -> (m: Seq<int>)
    requires
        0 <= i < lists.len(),
        lists[i] == tidy(parts),
    ensures
        m.len() == lists[i].len(),
        forall|k: int|
            0 <= k < m.len() ==> 0 <= #[trigger] m[k] < parts.len() && !is_blank(parts[m[k]])
                && lists[i][k] == trim(parts[m[k]]),
        forall|a: int, b: int| 0 <= a < b < m.len() ==> #[trigger] m[a] < #[trigger] m[b],
        forall|p: int| 0 <= p < parts.len() && !is_blank(#[trigger] parts[p]) ==> m.contains(p),
{
    tidy_keeps_what_is_not_blank(parts)
}

/// The authors of a merged book are those of all its volumes: each part of an author line that
/// is not blank is named, nothing else is, and nothing twice; and they stand in the order in
/// which they are first met, volume by volume.
pub proof fn merged_authors_are_those_of_all(v: Seq<BookView>)
    ensures
        all_authors(v).no_duplicates(),
        forall|i: int, k: int, x: Seq<char>| #[trigger]
            names_author(v, i, k, x) ==> all_authors(v).contains(x),
        forall|x: Seq<char>|
            #![trigger all_authors(v).contains(x)]
            all_authors(v).contains(x) ==> exists|i: int, k: int| names_author(v, i, k, x),
        forall|a: int, b: int|
            0 <= a < b < all_authors(v).len() ==> author_met_first(
                v,
                #[trigger] all_authors(v)[a],
                #[trigger] all_authors(v)[b],
            ),
{
    let lists = author_lists(v);
    let seps = seq!['、', ',', '，'];
    reveal_strlit("");
    assert(""@ =~= Seq::<char>::empty());
    lists_of_books(v);
    united_lists(lists);
    let l = all_authors(v);
    assert forall|i: int, k: int, x: Seq<char>| #[trigger] names_author(v, i, k, x) implies (exists|
        q: int,
    | is_at(lists, i, q, x)) by {
        let parts = split_on(coalesce(v[i].author, ""@), seps);
        let m = tidied_at(lists, i, parts);
        assert(m.contains(k));
        let q = choose|q: int| 0 <= q < m.len() && m[q] == k;
        assert(is_at(lists, i, q, x));
    }
    assert forall|i: int, k: int, x: Seq<char>| #[trigger] names_author(v, i, k, x) implies l.contains(
        x,
    ) by {
        let q = choose|q: int| is_at(lists, i, q, x);
        assert(is_at(lists, i, q, x));
    }
    assert forall|x: Seq<char>| #[trigger] l.contains(x) implies exists|i: int, k: int|
        names_author(v, i, k, x) by {
        let (i, q) = choose|i: int, q: int| is_at(lists, i, q, x);
        let parts = split_on(coalesce(v[i].author, ""@), seps);
        let m = tidied_at(lists, i, parts);
        assert(names_author(v, i, m[q], x));
    }
    assert forall|a: int, b: int| 0 <= a < b < l.len() implies author_met_first(
        v,
        #[trigger] l[a],
        #[trigger] l[b],
    ) by {
        assert(is_met_first(lists, l[a], l[b]));
        let (i, q) = choose|i: int, q: int| #[trigger]
            is_at(lists, i, q, l[a]) && forall|j: int, m: int| #[trigger]
                is_at(lists, j, m, l[b]) ==> i < j || i == j && q < m;
        let parts = split_on(coalesce(v[i].author, ""@), seps);
        let m = tidied_at(lists, i, parts);
        let k = m[q];
        assert(names_author(v, i, k, l[a]));
        assert forall|j: int, p: int| #[trigger] names_author(v, j, p, l[b]) implies i < j || i
            == j && k < p by {
            let other = split_on(coalesce(v[j].author, ""@), seps);
            let n = tidied_at(lists, j, other);
            assert(n.contains(p));
            let t = choose|t: int| 0 <= t < n.len() && n[t] == p;
            assert(is_at(lists, j, t, l[b]));
            if i == j {
                assert(m.contains(p));
                let u = choose|u: int| 0 <= u < m.len() && m[u] == p;
                assert(is_at(lists, i, u, l[b]));
                assert(m[q] < m[u]);
            }
        }
    }
}

/// The tags of a merged book are those of all its volumes and the fixed ones: each part of a
/// line of tags that is not blank is among them, and each fixed tag, nothing else, and nothing
/// twice; those of the volumes stand before the fixed ones that no volume has.
pub proof fn merged_tags_are_those_of_all(v: Seq<BookView>, fixed: Seq<Seq<char>>)
    ensures
        ({
            let l = with_all_new(all_tags(v), fixed);
            &&& l.no_duplicates()
            &&& forall|x: Seq<char>|
                #![trigger l.contains(x)]
                l.contains(x) <==> fixed.contains(x) || exists|i: int, k: int|
                    names_tag(v, i, k, x)
            &&& all_tags(v).is_prefix_of(l)
            &&& forall|x: Seq<char>|
                #![trigger all_tags(v).contains(x)]
                all_tags(v).contains(x) <==> exists|i: int, k: int| names_tag(v, i, k, x)
        }),
{
    let lists = tag_lists(v);
    let seps = seq![',', '，'];
    reveal_strlit("");
    assert(""@ =~= Seq::<char>::empty());
    lists_of_books(v);
    united_lists(lists);
    let tags = all_tags(v);
    assert forall|x: Seq<char>| #[trigger] tags.contains(x) <==> exists|i: int, k: int|
        names_tag(v, i, k, x) by {
        if exists|i: int, k: int| names_tag(v, i, k, x) {
            let (i, k) = choose|i: int, k: int| names_tag(v, i, k, x);
            let m = tidied_at(lists, i, split_on(coalesce(v[i].tags, ""@), seps));
            assert(m.contains(k));
            let q = choose|q: int| 0 <= q < m.len() && m[q] == k;
            assert(is_at(lists, i, q, x));
        }
        if tags.contains(x) {
            let (i, q) = choose|i: int, q: int| is_at(lists, i, q, x);
            let m = tidied_at(lists, i, split_on(coalesce(v[i].tags, ""@), seps));
            assert(names_tag(v, i, m[q], x));
        }
    }
    union_is_distinct(tags, fixed);
    union_keeps_the_order(tags, fixed);
}

/// The entries of a merged book are those of all its volumes, nothing else and nothing twice,
/// in the order in which they are first met, volume by volume.
pub proof fn merged_entries_are_those_of_all(v: Seq<BookView>)
    ensures
        all_entries(v).no_duplicates(),
        forall|x: Seq<char>|
            #![trigger all_entries(v).contains(x)]
            all_entries(v).contains(x) <==> exists|i: int, k: int| names_entry(v, i, k, x),
        forall|a: int, b: int|
            0 <= a < b < all_entries(v).len() ==> entry_met_first(
                v,
                #[trigger] all_entries(v)[a],
                #[trigger] all_entries(v)[b],
            ),
{
    let lists = entry_lists(v);
    lists_of_books(v);
    united_lists(lists);
    let l = all_entries(v);
    assert forall|i: int, k: int, x: Seq<char>|
        #[trigger] names_entry(v, i, k, x) <==> is_at(lists, i, k, x) by {}
    assert forall|x: Seq<char>| #[trigger] l.contains(x) <==> exists|i: int, k: int|
        names_entry(v, i, k, x) by {
        if exists|i: int, k: int| names_entry(v, i, k, x) {
            let (i, k) = choose|i: int, k: int| names_entry(v, i, k, x);
            assert(is_at(lists, i, k, x));
        }
        if l.contains(x) {
            let (i, q) = choose|i: int, q: int| is_at(lists, i, q, x);
            assert(names_entry(v, i, q, x));
        }
    }
    assert forall|a: int, b: int| 0 <= a < b < l.len() implies entry_met_first(
        v,
        #[trigger] l[a],
        #[trigger] l[b],
    ) by {
        assert(is_met_first(lists, l[a], l[b]));
        let (i, q) = choose|i: int, q: int| #[trigger]
            is_at(lists, i, q, l[a]) && forall|j: int, m: int| #[trigger]
                is_at(lists, j, m, l[b]) ==> i < j || i == j && q < m;
        assert(names_entry(v, i, q, l[a]));
        assert forall|j: int, m: int| #[trigger] names_entry(v, j, m, l[b]) implies i < j || i == j
            && q < m by {
            assert(is_at(lists, j, m, l[b]));
        }
    }
}

/// Of each book there is one description, that which is recorded, or where that is blank the
/// one in its file; books without either leave it out. `m` says of which book each is.
pub proof fn descriptions_are_those_of_the_books(
    recorded: Seq<Option<Seq<char>>>,
    in_files: Seq<Option<Seq<char>>>,
) -> (m: Seq<int>)
    ensures
        m.len() == merged_descriptions(recorded, in_files).len(),
        forall|a: int, b: int| 0 <= a < b < m.len() ==> #[trigger] m[a] < #[trigger] m[b],
        forall|i: int|
            0 <= i < m.len() ==> 0 <= #[trigger] m[i] < recorded.len() && (if recorded[m[i]]
                matches Some(d) && !is_blank(d) {
                merged_descriptions(recorded, in_files)[i] == recorded[m[i]]->0
            } else {
                m[i] < in_files.len() && in_files[m[i]] == Some(
                    merged_descriptions(recorded, in_files)[i],
                )
            }),
        forall|p: int|
            0 <= p < recorded.len() && ((#[trigger] recorded[p] matches Some(d) && !is_blank(d))
                || (p < in_files.len() && in_files[p] is Some)) ==> m.contains(p),
    decreases recorded.len(),
{
    if recorded.len() == 0 {
        Seq::empty()
    } else {
        let init = recorded.drop_last();
        let before = descriptions_are_those_of_the_books(init, in_files);
        let last = recorded.len() - 1;
        let all = merged_descriptions(recorded, in_files);
        let m = if all.len() > before.len() {
            before.push(last)
        } else {
            before
        };
        assert forall|i: int| 0 <= i < m.len() implies 0 <= #[trigger] m[i] < recorded.len() && (
        if recorded[m[i]] matches Some(d) && !is_blank(d) {
            all[i] == recorded[m[i]]->0
        } else {
            m[i] < in_files.len() && in_files[m[i]] == Some(all[i])
        }) by {
            if i < before.len() {
                assert(m[i] == before[i]);
                assert(init[before[i]] == recorded[m[i]]);
            }
        }
        assert forall|a: int, b: int| 0 <= a < b < m.len() implies #[trigger] m[a]
            < #[trigger] m[b] by {
            assert(m[a] == before[a]);
            if b < before.len() {
                assert(m[b] == before[b]);
            }
        }
        assert forall|p: int|
            0 <= p < recorded.len() && ((#[trigger] recorded[p] matches Some(d) && !is_blank(d))
                || (p < in_files.len() && in_files[p] is Some)) implies m.contains(p) by {
            if p < last {
                assert(init[p] == recorded[p]);
                assert(before.contains(p));
                let i = choose|i: int| 0 <= i < before.len() && before[i] == p;
                assert(m[i] == p);
            } else {
                assert(m[before.len() as int] == p);
            }
        }
        m
    }
}

// ---- what a merged book takes over ----

/// A source is taken over with all that it holds; its tags are those of the list that is written
/// in it. Its comments are taken over apart.
pub proof fn a_source_is_taken_over(s: SourceView)
    ensures
        ({
            let p = pending_of(s);
            &&& p.ref_key == s.ref_key && p.title == s.title && p.author == s.author
            &&& p.cover_url == s.cover_url && p.cover_path == s.cover_path
            &&& p.summary == s.summary && p.editions == s.editions
            &&& s.tags is None ==> p.tags is None
            &&& s.tags matches Some(j) ==> p.tags == strings_of_json(j)
            &&& s.series_name is None ==> p.series is None
            &&& s.series_name matches Some(n) ==> p.series == Some((n, s.series_order))
            &&& p.comments.len() == 0
        }),
{
}

/// The sources of several books are taken over book by book, and of each book all that are pages
/// of the review site, or all that are not, in the order in which they are listed. `m` says
/// which of one book.
pub proof fn every_source_of_the_books_counts(
    c: CatalogView,
    a: Seq<i64>,
    b: Seq<i64>,
    rows: Seq<SourceView>,
    pages: bool,
) -> (m: Seq<int>)
    ensures
        all_pendings(c, a + b, pages) == all_pendings(c, a, pages) + all_pendings(c, b, pages),
        a.len() == 1 ==> all_pendings(c, a, pages) == pendings_of(
            sources_of(c.sources, a[0] as int),
            pages,
        ),
        m.len() == pendings_of(rows, pages).len(),
        forall|i: int, j: int| 0 <= i < j < m.len() ==> #[trigger] m[i] < #[trigger] m[j],
        forall|i: int|
            0 <= i < m.len() ==> 0 <= #[trigger] m[i] < rows.len() && pendings_of(rows, pages)[i]
                == pending_of(rows[m[i]]) && has_part(rows[m[i]].ref_key, "book.douban.com"@)
                == pages,
        forall|p: int|
            0 <= p < rows.len() && has_part((#[trigger] rows[p]).ref_key, "book.douban.com"@)
                == pages ==> m.contains(p),
{
    pendings_in_two(c, a, b, pages);
    if a.len() == 1 {
        assert(all_pendings(c, a.drop_last(), pages) =~= Seq::<PendingView>::empty());
        assert(all_pendings(c, a, pages) =~= pendings_of(sources_of(c.sources, a[0] as int), pages));
    }
    rows_that_count(rows, pages)
}

proof fn pendings_in_two(c: CatalogView, a: Seq<i64>, b: Seq<i64>, pages: bool)
    ensures
        all_pendings(c, a + b, pages) == all_pendings(c, a, pages) + all_pendings(c, b, pages),
    decreases b.len(),
{
    if b.len() == 0 {
        assert(a + b =~= a);
        assert(all_pendings(c, a, pages) + all_pendings(c, b, pages) =~= all_pendings(c, a, pages));
    } else {
        assert((a + b).drop_last() =~= a + b.drop_last());
        assert((a + b).last() == b.last());
        pendings_in_two(c, a, b.drop_last(), pages);
        assert(all_pendings(c, a + b, pages) =~= all_pendings(c, a, pages) + all_pendings(
            c,
            b,
            pages,
        ));
    }
}

proof fn rows_that_count(rows: Seq<SourceView>, pages: bool) -> (m: Seq<int>)
    ensures
        m.len() == pendings_of(rows, pages).len(),
        forall|i: int, j: int| 0 <= i < j < m.len() ==> #[trigger] m[i] < #[trigger] m[j],
        forall|i: int|
            0 <= i < m.len() ==> 0 <= #[trigger] m[i] < rows.len() && pendings_of(rows, pages)[i]
                == pending_of(rows[m[i]]) && is_page(rows[m[i]]) == pages,
        forall|p: int|
            0 <= p < rows.len() && is_page(#[trigger] rows[p]) == pages ==> m.contains(p),
    decreases rows.len(),
{
    if rows.len() == 0 {
        Seq::empty()
    } else {
        let d = rows.drop_last();
        let k = rows.len() - 1;
        let before = rows_that_count(d, pages);
        let m = if is_page(rows.last()) == pages {
            before.push(k)
        } else {
            before
        };
        assert forall|i: int| 0 <= i < m.len() implies 0 <= #[trigger] m[i] < rows.len()
            && pendings_of(rows, pages)[i] == pending_of(rows[m[i]]) && is_page(rows[m[i]])
            == pages by {
            if i < before.len() {
                assert(m[i] == before[i]);
                assert(d[before[i]] == rows[m[i]]);
            }
        }
        assert forall|i: int, j: int| 0 <= i < j < m.len() implies #[trigger] m[i] < #[trigger] m[j] by {
            assert(m[i] == before[i]);
            if j < before.len() {
                assert(m[j] == before[j]);
            }
        }
        assert forall|p: int| 0 <= p < rows.len() && is_page(#[trigger] rows[p]) == pages implies m.contains(
        p) by {
            if p < k {
                assert(d[p] == rows[p]);
                let q = choose|q: int| 0 <= q < before.len() && before[q] == p;
                assert(m[q] == p);
            } else {
                assert(m[before.len() as int] == p);
            }
        }
        m
    }
}

proof fn pendings_rest_on_sources(c: CatalogView, d: CatalogView, ids: Seq<i64>, pages: bool)
    requires
        c.sources == d.sources,
    ensures
        all_pendings(c, ids, pages) == all_pendings(d, ids, pages),
    decreases ids.len(),
{
    if ids.len() > 0 {
        pendings_rest_on_sources(c, d, ids.drop_last(), pages);
    }
}

proof fn copies_keep_sources(c: CatalogView, rows: Seq<CommentView>, book: int)
    ensures
        comments_copied(c, rows, book).sources == c.sources,
    decreases rows.len(),
{
    if rows.len() > 0 {
        copies_keep_sources(c, rows.drop_last(), book);
    }
}

proof fn all_copies_keep_sources(c: CatalogView, ids: Seq<i64>, book: int)
    ensures
        all_comments_copied(c, ids, book).sources == c.sources,
    decreases ids.len(),
{
    if ids.len() > 0 {
        all_copies_keep_sources(c, ids.drop_last(), book);
        let before = all_comments_copied(c, ids.drop_last(), book);
        copies_keep_sources(before, comments_of(before.comments, ids.last() as int), book);
    }
}

proof fn deleting_keeps_the_sources(c: CatalogView, ids: Seq<i64>, book: int)
    requires
        forall|k: int| 0 <= k < ids.len() ==> (#[trigger] ids[k]) != book,
    ensures
        books_deleted(c, ids).sources.filter(|s: SourceView| s.book_id == book) == c.sources.filter(
            |s: SourceView| s.book_id == book,
        ),
    decreases ids.len(),
{
    if ids.len() > 0 {
        let init = ids.drop_last();
        let id = ids.last() as int;
        assert forall|k: int| 0 <= k < init.len() implies (#[trigger] init[k]) != book by {
            assert(ids[k] != book);
        }
        assert(ids[ids.len() - 1] != book);
        deleting_keeps_the_sources(c, init, book);
        let before = books_deleted(c, init);
        release_keeps_rows(
            rows_deleted(before, id),
            book_paths(before, id),
            book_paths(before, id).len(),
        );
        filter_narrows(
            before.sources,
            |s: SourceView| s.book_id != id,
            |s: SourceView| s.book_id == book,
        );
    }
}

/// A merged book has the sources of all the books that it was merged from: those that are no
/// pages of the review site as entries, in order, and behind these the pages, in order.
pub proof fn merged_book_has_the_sources(c: CatalogView, m: MergedBook, library: Option<Seq<char>>)
    requires
        forall|i: int| 0 <= i < c.sources.len() ==> (#[trigger] c.sources[i]).book_id <= c.last_book,
        forall|k: int|
            0 <= k < m.merged_from@.len() ==> (#[trigger] m.merged_from@[k]) <= c.last_book,
    ensures
        ({
            let id = c.last_book + 1;
            let v = merge_applied(c, m, library).sources.filter(|s: SourceView| s.book_id == id);
            let entries = all_pendings(c, m.merged_from@, false);
            let pages = all_pendings(c, m.merged_from@, true);
            &&& v.len() == entries.len() + pages.len()
            &&& forall|i: int|
                0 <= i < entries.len() ==> is_recorded_source(
                    #[trigger] v[i],
                    entries[i],
                    "clasp"@,
                    i,
                )
            &&& forall|i: int|
                entries.len() <= i < v.len() ==> is_recorded_source(
                    #[trigger] v[i],
                    pages[i - entries.len()],
                    "douban"@,
                    i - entries.len(),
                )
        }),
{
    let id = c.last_book + 1;
    let ids = m.merged_from@;
    let c1 = merged_recorded(c, m, library);
    assert(c1.sources == c.sources);
    pendings_rest_on_sources(c1, c, ids, false);
    pendings_rest_on_sources(c1, c, ids, true);
    let entries = all_pendings(c, ids, false);
    let pages = all_pendings(c, ids, true);
    let f = |s: SourceView| s.book_id == id;
    filter_away(c.sources, f);
    let s1 = sources_recorded(c1, id, "clasp"@, "claspclub"@, entries);
    kind_is_recorded(c1, id, "clasp"@, "claspclub"@, entries);
    kind_is_recorded(s1, id, "douban"@, "豆瓣"@, pages);
    let s2 = sources_recorded(s1, id, "douban"@, "豆瓣"@, pages);
    let c2 = sources_kept(c1, id, entries, pages);
    assert(c2.sources == s2.sources);
    all_copies_keep_sources(c2, ids, id);
    let c3 = all_comments_copied(c2, ids, id);
    assert forall|k: int| 0 <= k < ids.len() implies (#[trigger] ids[k]) != id by {}
    deleting_keeps_the_sources(c3, ids, id);
    let v = merge_applied(c, m, library).sources.filter(f);
    let first = s1.sources.filter(f);
    assert(v == s2.sources.filter(f));
    assert forall|i: int| 0 <= i < entries.len() implies is_recorded_source(
        #[trigger] v[i],
        entries[i],
        "clasp"@,
        i,
    ) by {
        assert(v[i] == first[i]);
    }
}

/// What is recorded of a merged book: its title, author, tags, file and description, where that
/// is not blank, its cover, its entries, the books that it was merged from and its library. It is
/// to be read, and belongs to no series; no other book changes.
pub proof fn what_is_recorded_of_a_merged_book(
    c: CatalogView,
    m: MergedBook,
    library: Option<Seq<char>>,
)
    requires
        forall|i: int| 0 <= i < c.books.len() ==> (#[trigger] c.books[i]).id <= c.last_book,
    ensures
        ({
            let e = merged_recorded(c, m, library);
            let b = e.books.last();
            &&& e.books.len() == c.books.len() + 1
            &&& c.books.is_prefix_of(e.books)
            &&& b.id == c.last_book + 1
            &&& b.title == m.title@ && b.author == Some(m.author@) && b.tags == Some(m.tags@)
            &&& b.file_path == Some(m.file_path@) && b.library_file == Some(m.library_file@)
            &&& is_blank(m.description@) ==> b.description is None
            &&& !is_blank(m.description@) ==> b.description == Some(m.description@)
            &&& b.cover_path == opt_str(m.cover_path)
            &&& m.clasp_ids is Some ==> b.clasp_ids == opt_str(m.clasp_ids)
            &&& m.clasp_ids is None ==> b.clasp_ids == Some("[]"@)
            &&& b.merged_from == Some(json_of_ints(m.merged_from@.map_values(|n: i64| n as int)))
            &&& b.library_id == library
            &&& b.status == Some("想读"@) && b.my_review is None && b.finished_date is None
            &&& b.series_name is None && b.series_order is None
            &&& e.comments == c.comments && e.sources == c.sources
            &&& m.cover_path matches Some(p) ==> e.covers.contains_key(p@)
        }),
{
    let e = merged_recorded(c, m, library);
    assert forall|i: int| 0 <= i < c.books.len() implies c.books[i] == e.books[i] by {
        assert(c.books[i].id <= c.last_book);
    }
}

/// The files that go with books that are taken out are those that a book has in the library.
pub proof fn which_files_go(books: Seq<BookView>, ids: Seq<i64>, f: Seq<char>)
    ensures
        files_of(books, ids).contains(f) <==> f.len() > 0 && exists|k: int|
            0 <= k < ids.len() && (book_of(books, (#[trigger] ids[k]) as int) matches Some(b)
                && b.library_file == Some(f)),
    decreases ids.len(),
{
    if ids.len() > 0 {
        let d = ids.drop_last();
        let n = ids.len() - 1;
        let before = files_of(books, d);
        let now = files_of(books, ids);
        which_files_go(books, d, f);
        assert(forall|k: int| 0 <= k < n ==> #[trigger] d[k] == ids[k]);
        if before.contains(f) {
            let q = choose|q: int| 0 <= q < before.len() && before[q] == f;
            assert(now[q] == f);
            let k = choose|k: int|
                0 <= k < d.len() && (book_of(books, (#[trigger] d[k]) as int) matches Some(b)
                    && b.library_file == Some(f));
            assert(ids[k] == d[k]);
        } else if now.contains(f) {
            let q = choose|q: int| 0 <= q < now.len() && now[q] == f;
            if q < before.len() {
                assert(before[q] == f);
            }
            assert(ids[n] == ids.last());
        } else if f.len() > 0 {
            assert forall|k: int| 0 <= k < ids.len() implies !(book_of(
                books,
                (#[trigger] ids[k]) as int,
            ) matches Some(b) && b.library_file == Some(f)) by {
                if k < n {
                    assert(d[k] == ids[k]);
                } else if book_of(books, ids[k] as int) matches Some(b) && b.library_file == Some(f) {
                    assert(now.last() == f);
                }
            }
        }
    }
}

/// Which books are meant: a text denotes the number in it, whatever white space stands round it;
/// the first that denotes none, and the first that no book has, is found.
pub proof fn which_books_are_meant(parts: Seq<Seq<char>>, books: Seq<BookView>, ids: Seq<i64>, i: int)
    requires
        0 <= i,
    ensures
        match bad_id(parts, i) {
            Some(k) => i <= k < parts.len() && id_in(parts[k]) is None && forall|j: int|
                i <= j < k ==> id_in(#[trigger] parts[j]) is Some,
            None => forall|j: int| i <= j < parts.len() ==> id_in(#[trigger] parts[j]) is Some,
        },
        match absent_id(books, ids, i) {
            Some(k) => i <= k < ids.len() && book_of(books, ids[k] as int) is None && forall|j: int|
                i <= j < k ==> book_of(books, (#[trigger] ids[j]) as int) is Some,
            None => forall|j: int|
                i <= j < ids.len() ==> book_of(books, (#[trigger] ids[j]) as int) is Some,
        },
        i < parts.len() ==> match parse_int(trim(parts[i])) {
            Some(n) => id_in(parts[i]) == (if i64::MIN <= n <= i64::MAX {
                Some(n)
            } else {
                None
            }),
            None => id_in(parts[i]) is None,
        },
    decreases parts.len() + ids.len() + 1 - i,
{
    if i < parts.len() || i < ids.len() {
        which_books_are_meant(parts, books, ids, i + 1);
    }
}

/// The description of a merged book is the one that was made; without one it is the first that a
/// book has.
pub proof fn the_made_description_counts(made: Seq<char>, all: Seq<Seq<char>>)
    ensures
        chosen_description(Some(made), all) == made,
        all.len() > 0 ==> chosen_description(None, all) == all[0],
        all.len() == 0 ==> chosen_description(None, all).len() == 0,
{
}

/// The file of a book is the one in the library; one that has none there is read where it was
/// taken from.
pub proof fn where_the_file_of_a_book_is(lib: Seq<char>, library_file: Seq<char>, file_path: Seq<char>)
    ensures
        library_file.len() > 0 ==> epub_place(lib, library_file, file_path) == path_in(
            lib,
            library_file,
        ),
        library_file.len() == 0 ==> epub_place(lib, library_file, file_path) == file_path,
{
}

/// The copy of a cover is named after the second in which it was made, with the extension of the
/// cover in small letters, and with that of a photograph where it has none.
pub proof fn what_the_copy_of_a_cover_is_called(now: nat, cover: Seq<char>)
    ensures
        path_extension(cover) matches Some(e) ==> merged_cover(now, cover) == "merged-"@ + dec(now)
            + "."@ + lowercase(e),
        path_extension(cover) is None ==> merged_cover(now, cover) == "merged-"@ + dec(now) + "."@
            + lowercase("jpg"@),
{
}

/// The resources of different books stand in different directories of a merged file, each named
/// after its number; numbers below ten are written with two digits in lists.
pub proof fn where_the_resources_of_a_book_stand(i: nat)
    ensures
        volume_dir(i) == "b"@ + dec(i) + "/"@,
        i < 10 ==> two_digits(i) == "0"@ + dec(i),
        i >= 10 ==> two_digits(i) == dec(i),
{
}

} // verus!
