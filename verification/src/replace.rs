//! Replacing the books of one library by those of a remote catalogue.
use vstd::prelude::*;
use vstd::string::*;

use crate::db::{
    coalesce, holds, no_book_changed, one_book_changed, or_text, with_book, with_new_book, BookRec,
    BookView, Catalog, CatalogView, CommentRec, CommentRow, CommentView, DbError, SourceRec,
    SourceRow, SourceView,
};
use crate::seqs::{
    filter_away, filter_from, filter_narrows, filter_none, filter_push, filter_step, picked, take_all,
};
use crate::sources::{
    rows_deleted, sources_of, with_new_comment, with_new_source, CommentFilter, SourceFilter,
};
use crate::text::{
    chars_of, clone_opt, has_string, opt_str, same, string_of_range, strs, trim, trimmed,
};
use crate::usage::seeded;

verus! {

// ---- finding a cover again ----

/// A file of the local cover directory.
pub struct CoverFile {
    /// The file's name.
    pub name: String,
    /// Where the file is.
    pub path: String,
}

/// Whether `c` separates the parts of a path on some platform.
pub open spec fn is_separator(c: char) -> bool {
    c == '/' || c == '\\'
}

/// `p` without the separators at its end.
pub open spec fn without_end(p: Seq<char>) -> Seq<char>
    decreases p.len(),
{
    if p.len() > 0 && is_separator(p.last()) {
        without_end(p.drop_last())
    } else {
        p
    }
}

/// What stands behind the last separator of `p`.
pub open spec fn behind_separator(p: Seq<char>) -> Seq<char>
    decreases p.len(),
{
    if p.len() == 0 || is_separator(p.last()) {
        Seq::empty()
    } else {
        behind_separator(p.drop_last()).push(p.last())
    }
}

/// The file name of a path of any platform.
pub open spec fn file_name_of(p: Seq<char>) -> Seq<char> {
    trim(behind_separator(without_end(p)))
}

/// The path of the first file that is named `name`.
pub open spec fn file_named(files: Seq<CoverFile>, name: Seq<char>) -> Option<Seq<char>>
    decreases files.len(),
{
    if files.len() == 0 {
        None
    } else if files[0].name@ == name {
        Some(files[0].path@)
    } else {
        file_named(files.drop_first(), name)
    }
}

/// Where the file of `path` is in the local cover directory.
pub open spec fn rebased(path: Seq<char>, files: Seq<CoverFile>) -> Option<Seq<char>> {
    let name = file_name_of(path);
    if name.len() == 0 {
        None
    } else {
        file_named(files, name)
    }
}

/// Where the file of an optional path is in the local cover directory.
pub open spec fn rebased_opt(path: Option<Seq<char>>, files: Seq<CoverFile>) -> Option<Seq<char>> {
    match path {
        Some(p) => rebased(p, files),
        None => None,
    }
}

/// Where the file of `path` is in the local cover directory. The path may come from any
/// platform: only its file name counts.
pub fn rebase_cover_path(path: &str, files: &Vec<CoverFile>) -> (r: Option<String>)
    ensures
        opt_str(r) == rebased(path@, files@),
{
    let v = chars_of(path);
    let mut end: usize = v.len();
    assert(v@.take(end as int) =~= v@);
    while end > 0 && (v[end - 1] == '/' || v[end - 1] == '\\')
        invariant
            end <= v@.len(),
            without_end(v@) == without_end(v@.take(end as int)),
        decreases end,
    {
        assert(v@.take(end as int).drop_last() =~= v@.take(end - 1));
        end -= 1;
    }
    assert(without_end(v@) == v@.take(end as int));
    let mut start: usize = end;
    assert(behind_separator(v@.take(end as int)) =~= behind_separator(v@.take(start as int))
        + v@.subrange(start as int, end as int));
    while start > 0 && !(v[start - 1] == '/' || v[start - 1] == '\\')
        invariant
            start <= end <= v@.len(),
            behind_separator(v@.take(end as int)) == behind_separator(v@.take(start as int))
                + v@.subrange(start as int, end as int),
        decreases start,
    {
        assert(v@.take(start as int).drop_last() =~= v@.take(start - 1));
        assert(v@.take(start as int).last() == v@[start - 1]);
        assert(behind_separator(v@.take(start as int)) + v@.subrange(start as int, end as int)
            =~= behind_separator(v@.take(start - 1)) + v@.subrange(start - 1, end as int));
        start -= 1;
    }
    assert(behind_separator(v@.take(start as int)) =~= Seq::<char>::empty());
    assert(behind_separator(v@.take(end as int)) =~= v@.subrange(start as int, end as int));
    let name = trimmed(&string_of_range(&v, start, end));
    if name.as_str().is_empty() {
        return None;
    }
    let mut i: usize = 0;
    assert(files@.skip(0) =~= files@);
    while i < files.len()
        invariant
            i <= files@.len(),
            file_named(files@, name@) == file_named(files@.skip(i as int), name@),
            name@ == file_name_of(path@),
            name@.len() > 0,
        decreases files@.len() - i,
    {
        assert(files@.skip(i as int)[0] == files@[i as int]);
        if same(&files[i].name, &name) {
            return Some(files[i].path.clone());
        }
        assert(files@.skip(i as int).drop_first() =~= files@.skip(i + 1));
        i += 1;
    }
    None
}

// ---- the rows that come over ----

/// How many rows a replacement touched.
#[derive(Debug, Clone, Copy)]
pub struct ReplaceStats {
    /// Books that were there and were overwritten.
    pub updated: usize,
    /// Books that were added.
    pub inserted: usize,
    /// Books that were taken out.
    pub deleted: usize,
}

/// The file of a book in its library; empty where it has none.
pub open spec fn file_of(b: BookView) -> Seq<char> {
    coalesce(b.library_file, ""@)
}

/// Whether a remote book belongs to the library that is replaced: its file is there.
pub open spec fn in_scope(b: BookView, files: Seq<Seq<char>>) -> bool {
    file_of(b).len() > 0 && files.contains(file_of(b))
}

/// The local books of a library.
pub open spec fn local_rows(c: CatalogView, library: Seq<char>) -> Seq<BookView> {
    c.books.filter(|b: BookView| b.library_id == Some(library))
}

/// The last of `rows` whose file is `file`.
pub open spec fn row_with_file(rows: Seq<BookView>, file: Seq<char>) -> Option<int>
    decreases rows.len(),
{
    if rows.len() == 0 {
        None
    } else if file_of(rows.last()) == file {
        Some(rows.last().id)
    } else {
        row_with_file(rows.drop_last(), file)
    }
}

/// A local book with the data of the remote one. Its origin, its file and its library
/// stay.
pub open spec fn overwritten(l: BookView, b: BookView, cover: Option<Seq<char>>) -> BookView {
    BookView {
        title: b.title,
        author: Some(coalesce(b.author, ""@)),
        tags: Some(coalesce(b.tags, ""@)),
        status: Some(coalesce(b.status, "想读"@)),
        my_review: Some(coalesce(b.my_review, ""@)),
        finished_date: b.finished_date,
        description: Some(coalesce(b.description, ""@)),
        cover_path: cover,
        series_name: b.series_name,
        series_order: b.series_order,
        clasp_ids: Some(coalesce(b.clasp_ids, "[]"@)),
        merged_from: Some(coalesce(b.merged_from, ""@)),
        douban_urls: Some(coalesce(b.douban_urls, "[]"@)),
        ..l
    }
}

/// A remote book as a new book of the local library.
pub open spec fn imported(b: BookView, cover: Option<Seq<char>>, library: Seq<char>) -> BookView {
    BookView {
        file_path: Some(coalesce(b.file_path, ""@)),
        library_file: Some(file_of(b)),
        library_id: Some(library),
        ..overwritten(b, b, cover)
    }
}

/// The catalogue with the first `n` of the comments `xs` added to `book`.
pub open spec fn comments_added(
    c: CatalogView,
    xs: Seq<CommentView>,
    book: int,
    n: nat,
) -> CatalogView
    decreases n,
{
    if n == 0 {
        c
    } else {
        with_new_comment(
            comments_added(c, xs, book, (n - 1) as nat),
            CommentView { book_id: book, ..xs[n - 1] },
        )
    }
}

/// The catalogue with the first `n` of the sources `xs` added to `book`, their covers
/// found again.
pub open spec fn sources_added(
    c: CatalogView,
    xs: Seq<SourceView>,
    book: int,
    covers: Seq<CoverFile>,
    n: nat,
) -> CatalogView
    decreases n,
{
    if n == 0 {
        c
    } else {
        with_new_source(
            sources_added(c, xs, book, covers, (n - 1) as nat),
            SourceView {
                book_id: book,
                cover_path: rebased_opt(xs[n - 1].cover_path, covers),
                ..xs[n - 1]
            },
        )
    }
}

/// The comments of a book, in the order of their identifiers.
pub open spec fn plain_comments(r: CatalogView, book: int) -> Seq<CommentView> {
    r.comments.filter(|x: CommentView| x.book_id == book)
}

/// The catalogue with the comments and the sources of the remote book `from` added to
/// `to`.
pub open spec fn belongings_added(
    c: CatalogView,
    r: CatalogView,
    from: int,
    to: int,
    covers: Seq<CoverFile>,
) -> CatalogView {
    let xs = plain_comments(r, from);
    let ys = sources_of(r.sources, from);
    sources_added(comments_added(c, xs, to, xs.len()), ys, to, covers, ys.len())
}

/// The catalogue without the comments and sources of `book`.
pub open spec fn belongings_dropped(c: CatalogView, book: int) -> CatalogView {
    CatalogView {
        comments: c.comments.filter(|x: CommentView| x.book_id != book),
        sources: c.sources.filter(|s: SourceView| s.book_id != book),
        ..c
    }
}

/// The catalogue after one remote book came over.
pub open spec fn book_replaced(
    c: CatalogView,
    r: CatalogView,
    b: BookView,
    rows: Seq<BookView>,
    library: Seq<char>,
    files: Seq<Seq<char>>,
    covers: Seq<CoverFile>,
) -> CatalogView {
    let cover = rebased_opt(b.cover_path, covers);
    if !in_scope(b, files) {
        c
    } else {
        match row_with_file(rows, file_of(b)) {
            Some(id) => belongings_added(
                belongings_dropped(
                    with_book(c, id, |l: BookView| overwritten(l, b, cover)),
                    id,
                ),
                r,
                b.id,
                id,
                covers,
            ),
            None => belongings_added(
                with_new_book(c, imported(b, cover, library)),
                r,
                b.id,
                c.last_book + 1,
                covers,
            ),
        }
    }
}

/// The catalogue after the first `n` remote books came over.
pub open spec fn replaced_first(
    c: CatalogView,
    r: CatalogView,
    library: Seq<char>,
    files: Seq<Seq<char>>,
    covers: Seq<CoverFile>,
    n: nat,
) -> CatalogView
    decreases n,
{
    if n == 0 {
        c
    } else {
        book_replaced(
            replaced_first(c, r, library, files, covers, (n - 1) as nat),
            r,
            r.books[n - 1],
            local_rows(c, library),
            library,
            files,
            covers,
        )
    }
}

/// How many of the first `n` remote books overwrite a local one.
pub open spec fn updates_first(
    r: CatalogView,
    rows: Seq<BookView>,
    files: Seq<Seq<char>>,
    n: nat,
) -> nat
    decreases n,
{
    if n == 0 {
        0
    } else {
        updates_first(r, rows, files, (n - 1) as nat) + (if in_scope(r.books[n - 1], files)
            && row_with_file(rows, file_of(r.books[n - 1])) is Some {
            1nat
        } else {
            0
        })
    }
}

/// How many of the first `n` remote books are new.
pub open spec fn inserts_first(
    r: CatalogView,
    rows: Seq<BookView>,
    files: Seq<Seq<char>>,
    n: nat,
) -> nat
    decreases n,
{
    if n == 0 {
        0
    } else {
        inserts_first(r, rows, files, (n - 1) as nat) + (if in_scope(r.books[n - 1], files)
            && row_with_file(rows, file_of(r.books[n - 1])) is None {
            1nat
        } else {
            0
        })
    }
}

/// How many comments come over with the first `n` remote books.
pub open spec fn comments_needed(r: CatalogView, files: Seq<Seq<char>>, n: nat) -> nat
    decreases n,
{
    if n == 0 {
        0
    } else {
        comments_needed(r, files, (n - 1) as nat) + (if in_scope(r.books[n - 1], files) {
            plain_comments(r, r.books[n - 1].id).len()
        } else {
            0
        })
    }
}

/// How many sources come over with the first `n` remote books.
pub open spec fn sources_needed(r: CatalogView, files: Seq<Seq<char>>, n: nat) -> nat
    decreases n,
{
    if n == 0 {
        0
    } else {
        sources_needed(r, files, (n - 1) as nat) + (if in_scope(r.books[n - 1], files) {
            sources_of(r.sources, r.books[n - 1].id).len()
        } else {
            0
        })
    }
}

/// Whether the identifiers last for the rows that come over.
pub open spec fn ids_last(
    c: CatalogView,
    r: CatalogView,
    library: Seq<char>,
    files: Seq<Seq<char>>,
) -> bool {
    let n = r.books.len();
    &&& c.last_book + inserts_first(r, local_rows(c, library), files, n) <= i64::MAX
    &&& c.last_comment + comments_needed(r, files, n) <= i64::MAX
    &&& c.last_source + sources_needed(r, files, n) <= i64::MAX
}

/// Whether a local book goes: it has a file, and the remote library does not have it.
pub open spec fn is_doomed(b: BookView, files: Seq<Seq<char>>) -> bool {
    file_of(b).len() > 0 && !files.contains(file_of(b))
}

/// The catalogue without those of the first `n` rows that go.
pub open spec fn pruned_first(
    c: CatalogView,
    rows: Seq<BookView>,
    files: Seq<Seq<char>>,
    n: nat,
) -> CatalogView
    decreases n,
{
    if n == 0 {
        c
    } else {
        let d = pruned_first(c, rows, files, (n - 1) as nat);
        if is_doomed(rows[n - 1], files) {
            rows_deleted(d, rows[n - 1].id)
        } else {
            d
        }
    }
}

/// How many of the rows go.
pub open spec fn doomed_count(rows: Seq<BookView>, files: Seq<Seq<char>>) -> nat {
    rows.filter(|b: BookView| is_doomed(b, files)).len()
}

/// The catalogue after the replacement, the cover counts not yet made anew.
pub open spec fn replaced_rows(
    c: CatalogView,
    r: CatalogView,
    library: Seq<char>,
    files: Seq<Seq<char>>,
    covers: Seq<CoverFile>,
) -> CatalogView {
    let rows = local_rows(c, library);
    pruned_first(
        replaced_first(c, r, library, files, covers, r.books.len()),
        rows,
        files,
        rows.len(),
    )
}

/// Whether the replacement changes anything.
pub open spec fn replacement_changes(
    c: CatalogView,
    r: CatalogView,
    library: Seq<char>,
    files: Seq<Seq<char>>,
) -> bool {
    let rows = local_rows(c, library);
    updates_first(r, rows, files, r.books.len()) > 0 || inserts_first(
        r,
        rows,
        files,
        r.books.len(),
    ) > 0 || doomed_count(rows, files) > 0
}

/// The catalogue after the replacement.
pub open spec fn replaced(
    c: CatalogView,
    r: CatalogView,
    library: Seq<char>,
    files: Seq<Seq<char>>,
    covers: Seq<CoverFile>,
) -> CatalogView {
    let d = replaced_rows(c, r, library, files, covers);
    if replacement_changes(c, r, library, files) {
        seeded(d)
    } else {
        d
    }
}

fn rebase_opt(path: &Option<String>, covers: &Vec<CoverFile>) -> (r: Option<String>)
    ensures
        opt_str(r) == rebased_opt(opt_str(*path), covers@),
{
    match path {
        Some(p) => rebase_cover_path(p, covers),
        None => None,
    }
}

fn overwrite(l: &mut BookRec, b: &BookRec, cover: Option<String>)
    ensures
        final(l)@ == overwritten(old(l)@, b@, opt_str(cover)),
{
    l.title = b.title.clone();
    l.author = Some(or_text(&b.author, ""));
    l.tags = Some(or_text(&b.tags, ""));
    l.status = Some(or_text(&b.status, "想读"));
    l.my_review = Some(or_text(&b.my_review, ""));
    l.finished_date = clone_opt(&b.finished_date);
    l.description = Some(or_text(&b.description, ""));
    l.cover_path = cover;
    l.series_name = clone_opt(&b.series_name);
    l.series_order = b.series_order;
    l.clasp_ids = Some(or_text(&b.clasp_ids, "[]"));
    l.merged_from = Some(or_text(&b.merged_from, ""));
    l.douban_urls = Some(or_text(&b.douban_urls, "[]"));
}

fn import(b: &BookRec, cover: Option<String>, library: &str, id: i64) -> (r: BookRec)
    ensures
        r@ == (BookView { id: id as int, ..imported(b@, opt_str(cover), library@) }),
{
    BookRec {
        id,
        title: b.title.clone(),
        author: Some(or_text(&b.author, "")),
        tags: Some(or_text(&b.tags, "")),
        file_path: Some(or_text(&b.file_path, "")),
        status: Some(or_text(&b.status, "想读")),
        my_review: Some(or_text(&b.my_review, "")),
        finished_date: clone_opt(&b.finished_date),
        description: Some(or_text(&b.description, "")),
        cover_path: cover,
        series_name: clone_opt(&b.series_name),
        series_order: b.series_order,
        library_file: Some(or_text(&b.library_file, "")),
        clasp_ids: Some(or_text(&b.clasp_ids, "[]")),
        merged_from: Some(or_text(&b.merged_from, "")),
        douban_urls: Some(or_text(&b.douban_urls, "[]")),
        library_id: Some(library.to_owned()),
    }
}

/// A local book of the library: its identifier and its file.
struct LocalRow {
    id: i64,
    file: String,
}

/// Whether the list holds the identifiers and files of the rows.
spec fn rows_are(v: Seq<LocalRow>, rows: Seq<BookView>) -> bool {
    &&& v.len() == rows.len()
    &&& forall|i: int|
        0 <= i < v.len() ==> (#[trigger] v[i]).id == rows[i].id && v[i].file@ == file_of(rows[i])
}

fn find_row(v: &Vec<LocalRow>, file: &str, Ghost(rows): Ghost<Seq<BookView>>) -> (r: Option<i64>)
    requires
        rows_are(v@, rows),
    ensures
        match r {
            Some(id) => row_with_file(rows, file@) == Some(id as int),
            None => row_with_file(rows, file@) is None,
        },
{
    let mut i: usize = v.len();
    proof {
        take_all(rows);
    }
    while i > 0
        invariant
            i <= v@.len(),
            rows_are(v@, rows),
            row_with_file(rows, file@) == row_with_file(rows.take(i as int), file@),
        decreases i,
    {
        assert(rows.take(i as int).last() == rows[i - 1]);
        assert(rows.take(i as int).drop_last() =~= rows.take(i - 1));
        if same(&v[i - 1].file, file) {
            return Some(v[i - 1].id);
        }
        i -= 1;
    }
    None
}

impl Catalog {
    fn library_rows(&self, library_id: &str) -> (r: Vec<LocalRow>)
        ensures
            rows_are(r@, local_rows(self@, library_id@)),
    {
        let ghost all = self@.books;
        let ghost hit = |b: BookView| b.library_id == Some(library_id@);
        let mut out: Vec<LocalRow> = Vec::new();
        let mut i: usize = 0;
        proof {
            filter_none(all, hit);
        }
        while i < self.books.len()
            invariant
                i <= self.books@.len(),
                all == self@.books,
                hit == |b: BookView| b.library_id == Some(library_id@),
                rows_are(out@, all.take(i as int).filter(hit)),
            decreases self.books@.len() - i,
        {
            proof {
                filter_step(all, i as int, hit);
                assert(all[i as int] == self.books@[i as int]@);
            }
            if holds(&self.books[i].library_id, library_id) {
                let ghost was = out@;
                out.push(
                    LocalRow {
                        id: self.books[i].id,
                        file: or_text(&self.books[i].library_file, ""),
                    },
                );
                proof {
                    let rows = all.take(i as int).filter(hit);
                    assert forall|k: int| 0 <= k < out@.len() implies (#[trigger] out@[k]).id
                        == rows.push(all[i as int])[k].id && out@[k].file@ == file_of(
                        rows.push(all[i as int])[k],
                    ) by {
                        if k < was.len() {
                            assert(out@[k] == was[k]);
                        }
                    }
                }
            }
            i += 1;
        }
        proof {
            take_all(all);
        }
        out
    }

    fn overwrite_book(&mut self, id: i64, b: &BookRec, cover: Option<String>)
        requires
            old(self).wf(),
        ensures
            final(self).wf(),
            final(self)@ == with_book(
                old(self)@,
                id as int,
                |l: BookView| overwritten(l, b@, opt_str(cover)),
            ),
    {
        let ghost c = self@;
        let ghost f = |l: BookView| overwritten(l, b@, opt_str(cover));
        match self.book_at(id) {
            Some(k) => {
                overwrite(&mut self.books[k], b, cover);
                proof {
                    assert(self@.books =~= c.books.update(k as int, f(c.books[k as int])));
                    one_book_changed(c, k as int, id as int, f, self@.books);
                }
            },
            None => {
                proof {
                    no_book_changed(c, id as int, f);
                }
            },
        }
    }

    fn drop_belongings(&mut self, id: i64)
        requires
            old(self).wf(),
        ensures
            final(self).wf(),
            final(self)@ == belongings_dropped(old(self)@, id as int),
    {
        self.remove_comments(&CommentFilter::OfBook(id));
        self.remove_sources(&SourceFilter::OfBook(id));
        proof {
            assert((|x: CommentView| !CommentFilter::OfBook(id).hits(x)) =~= (|x: CommentView|
                x.book_id != id as int));
            let hit = |s: SourceView| SourceFilter::OfBook(id).hits(s);
            assert((|s: SourceView| !hit(s)) =~= (|s: SourceView| s.book_id != id as int));
        }
    }

    fn add_comments_of(&mut self, remote: &Catalog, from: i64, to: i64)
        requires
            old(self).wf(),
            old(self).last_comment + plain_comments(remote@, from as int).len() <= i64::MAX,
        ensures
            final(self).wf(),
            final(self).last_comment == old(self).last_comment + plain_comments(
                remote@,
                from as int,
            ).len(),
            final(self).last_book == old(self).last_book,
            final(self).last_source == old(self).last_source,
            final(self)@ == comments_added(
                old(self)@,
                plain_comments(remote@, from as int),
                to as int,
                plain_comments(remote@, from as int).len(),
            ),
    {
        let ghost c = self@;
        let ghost all = remote@.comments;
        let ghost hit = |x: CommentView| x.book_id == from as int;
        let ghost xs = plain_comments(remote@, from as int);
        let mut i: usize = 0;
        proof {
            filter_none(all, hit);
        }
        while i < remote.comments.len()
            invariant
                i <= remote.comments@.len(),
                self.wf(),
                all == remote@.comments,
                hit == |x: CommentView| x.book_id == from as int,
                xs == all.filter(hit),
                c.last_comment + xs.len() <= i64::MAX,
                self.last_comment == c.last_comment + all.take(i as int).filter(hit).len(),
                self.last_book == c.last_book,
                self.last_source == c.last_source,
                self@ == comments_added(c, xs, to as int, all.take(i as int).filter(hit).len()),
            decreases remote.comments@.len() - i,
        {
            let ghost done = all.take(i as int).filter(hit);
            let x = &remote.comments[i];
            proof {
                filter_step(all, i as int, hit);
                filter_prefix_of(all, i + 1, hit);
                assert(all[i as int] == x@);
            }
            if x.book_id == from {
                assert(done.len() < xs.len());
                assert(xs[done.len() as int] == x@);
                let row = CommentRow {
                    id: self.last_comment + 1,
                    rating: x.row.rating,
                    content: x.row.content.clone(),
                    usefulness: x.row.usefulness,
                    source: x.row.source.clone(),
                    is_mine: x.row.is_mine,
                    source_ref: clone_opt(&x.row.source_ref),
                };
                self.push_comment(CommentRec { book_id: to, row });
            }
            i += 1;
        }
        proof {
            take_all(all);
        }
    }

    fn add_sources_of(&mut self, remote: &Catalog, from: i64, to: i64, covers: &Vec<CoverFile>)
        requires
            old(self).wf(),
            old(self).last_source + sources_of(remote@.sources, from as int).len() <= i64::MAX,
        ensures
            final(self).wf(),
            final(self).last_source == old(self).last_source + sources_of(
                remote@.sources,
                from as int,
            ).len(),
            final(self).last_book == old(self).last_book,
            final(self).last_comment == old(self).last_comment,
            final(self)@ == sources_added(
                old(self)@,
                sources_of(remote@.sources, from as int),
                to as int,
                covers@,
                sources_of(remote@.sources, from as int).len(),
            ),
    {
        let ghost c = self@;
        let ghost ys = sources_of(remote@.sources, from as int);
        let idx = remote.sources_at(from);
        assert(picked(remote@.sources, idx@).len() == idx@.len());
        let mut i: usize = 0;
        while i < idx.len()
            invariant
                i <= idx@.len(),
                idx@.len() == ys.len(),
                self.wf(),
                picked(remote@.sources, idx@) == ys,
                forall|k: int| 0 <= k < idx@.len() ==> (#[trigger] idx@[k]) < remote.sources@.len(),
                c.last_source + ys.len() <= i64::MAX,
                self.last_source == c.last_source + i,
                self.last_book == c.last_book,
                self.last_comment == c.last_comment,
                self@ == sources_added(c, ys, to as int, covers@, i as nat),
            decreases idx@.len() - i,
        {
            let s = &remote.sources[idx[i]];
            assert(ys[i as int] == s@);
            let row = SourceRow {
                kind: s.row.kind.clone(),
                ref_key: s.row.ref_key.clone(),
                position: s.row.position,
                title: clone_opt(&s.row.title),
                author: clone_opt(&s.row.author),
                cover_url: clone_opt(&s.row.cover_url),
                cover_path: rebase_opt(&s.row.cover_path, covers),
                summary: clone_opt(&s.row.summary),
                tags: clone_opt(&s.row.tags),
                series_name: clone_opt(&s.row.series_name),
                series_order: s.row.series_order,
                editions: clone_opt(&s.row.editions),
            };
            self.push_source(SourceRec { id: self.last_source + 1, book_id: to, row });
            i += 1;
        }
    }

    /// How many comments a book has.
    fn count_comments(&self, book_id: i64) -> (n: usize)
        ensures
            n == plain_comments(self@, book_id as int).len(),
    {
        let ghost all = self@.comments;
        let ghost hit = |x: CommentView| x.book_id == book_id as int;
        let mut n: usize = 0;
        let mut i: usize = 0;
        proof {
            filter_none(all, hit);
        }
        while i < self.comments.len()
            invariant
                i <= self.comments@.len(),
                all == self@.comments,
                hit == |x: CommentView| x.book_id == book_id as int,
                n == all.take(i as int).filter(hit).len(),
                n <= i,
            decreases self.comments@.len() - i,
        {
            proof {
                filter_step(all, i as int, hit);
                assert(all[i as int] == self.comments@[i as int]@);
            }
            if self.comments[i].book_id == book_id {
                n += 1;
            }
            i += 1;
        }
        proof {
            take_all(all);
        }
        n
    }

    /// Whether a remote book belongs to the library that is replaced.
    fn scoped(b: &BookRec, files: &Vec<String>) -> (r: bool)
        ensures
            r == in_scope(b@, strs(files@)),
    {
        let f = or_text(&b.library_file, "");
        !f.as_str().is_empty() && has_string(files, &f)
    }

    fn ids_suffice(
        &self,
        remote: &Catalog,
        rows: &Vec<LocalRow>,
        files: &Vec<String>,
        Ghost(library): Ghost<Seq<char>>,
    ) -> (r: bool)
        requires
            rows_are(rows@, local_rows(self@, library)),
        ensures
            r == ids_last(self@, remote@, library, strs(files@)),
    {
        let ghost locals = local_rows(self@, library);
        let ghost names = strs(files@);
        let mut books: u128 = 0;
        let mut comments: u128 = 0;
        let mut sources: u128 = 0;
        let mut i: usize = 0;
        while i < remote.books.len()
            invariant
                i <= remote.books@.len(),
                locals == local_rows(self@, library),
                names == strs(files@),
                rows_are(rows@, locals),
                books == inserts_first(remote@, locals, names, i as nat),
                comments == comments_needed(remote@, names, i as nat),
                sources == sources_needed(remote@, names, i as nat),
                books <= i,
                comments <= 0xffff_ffff_ffff_ffff * i,
                sources <= 0xffff_ffff_ffff_ffff * i,
            decreases remote.books@.len() - i,
        {
            let b = &remote.books[i];
            assert(remote@.books[i as int] == b@);
            if Self::scoped(b, files) {
                let f = or_text(&b.library_file, "");
                if find_row(rows, &f, Ghost(locals)).is_none() {
                    books = books + 1;
                }
                let n: usize = remote.count_comments(b.id);
                comments = comments + n as u128;
                let idx = remote.sources_at(b.id);
                assert(picked(remote@.sources, idx@).len() == idx@.len());
                let m: usize = idx.len();
                sources = sources + m as u128;
            }
            i += 1;
        }
        let max: i128 = i64::MAX as i128;
        let book_room: u128 = (max - self.last_book as i128) as u128;
        let comment_room: u128 = (max - self.last_comment as i128) as u128;
        let source_room: u128 = (max - self.last_source as i128) as u128;
        books <= book_room && comments <= comment_room && sources <= source_room
    }

    /// Replaces the books of a library by those of a remote catalogue.
    ///
    /// `remote_files` are the files that the remote library holds: they say which remote
    /// books belong to it. A local book with the same file is overwritten, all others are
    /// added, and local books whose file the remote library does not hold are taken out.
    /// Comments and sources come over with their book, covers are found again by their
    /// file name. Books without a file and books of other libraries stay as they are.
    pub fn replace_library_from_remote(
        &mut self,
        remote: &Catalog,
        library_id: &str,
        covers: &Vec<CoverFile>,
        remote_files: &Vec<String>,
    ) -> (r: Result<ReplaceStats, DbError>)
        requires
            old(self).wf(),
        ensures
            final(self).wf(),
            match r {
                Ok(s) => {
                    let rows = local_rows(old(self)@, library_id@);
                    let n = remote@.books.len();
                    &&& ids_last(old(self)@, remote@, library_id@, strs(remote_files@))
                    &&& final(self)@ == replaced(
                        old(self)@,
                        remote@,
                        library_id@,
                        strs(remote_files@),
                        covers@,
                    )
                    &&& s.updated == updates_first(remote@, rows, strs(remote_files@), n)
                    &&& s.inserted == inserts_first(remote@, rows, strs(remote_files@), n)
                    &&& s.deleted == doomed_count(rows, strs(remote_files@))
                },
                Err(e) => {
                    &&& e == DbError::Full
                    &&& !ids_last(old(self)@, remote@, library_id@, strs(remote_files@))
                    &&& *final(self) == *old(self)
                },
            },
    {
        let ghost c = self@;
        let ghost r = remote@;
        let ghost lib = library_id@;
        let ghost names = strs(remote_files@);
        let ghost locals = local_rows(c, lib);
        let rows = self.library_rows(library_id);
        if !self.ids_suffice(remote, &rows, remote_files, Ghost(lib)) {
            return Err(DbError::Full);
        }
        let mut updated: usize = 0;
        let mut inserted: usize = 0;
        let mut i: usize = 0;
        while i < remote.books.len()
            invariant
                i <= remote.books@.len(),
                self.wf(),
                r == remote@,
                lib == library_id@,
                names == strs(remote_files@),
                locals == local_rows(c, lib),
                rows_are(rows@, locals),
                ids_last(c, r, lib, names),
                updated <= i,
                inserted <= i,
                updated == updates_first(r, locals, names, i as nat),
                inserted == inserts_first(r, locals, names, i as nat),
                self.last_book == c.last_book + inserted,
                self.last_comment == c.last_comment + comments_needed(r, names, i as nat),
                self.last_source == c.last_source + sources_needed(r, names, i as nat),
                self@ == replaced_first(c, r, lib, names, covers@, i as nat),
            decreases remote.books@.len() - i,
        {
            let b = &remote.books[i];
            assert(r.books[i as int] == b@);
            proof {
                needs_grow(r, locals, names, (i + 1) as nat, r.books.len());
            }
            if Self::scoped(b, remote_files) {
                let f = or_text(&b.library_file, "");
                let cover = rebase_opt(&b.cover_path, covers);
                match find_row(&rows, &f, Ghost(locals)) {
                    Some(id) => {
                        self.overwrite_book(id, b, cover);
                        proof {
                            assert((|l: BookView| overwritten(l, b@, opt_str(cover)))
                                =~= (|l: BookView|
                                overwritten(l, b@, rebased_opt(b@.cover_path, covers@))));
                        }
                        self.drop_belongings(id);
                        self.add_comments_of(remote, b.id, id);
                        self.add_sources_of(remote, b.id, id, covers);
                        updated += 1;
                    },
                    None => {
                        let id: i64 = self.last_book + 1;
                        let book = import(b, cover, library_id, id);
                        self.push_book(book);
                        self.add_comments_of(remote, b.id, id);
                        self.add_sources_of(remote, b.id, id, covers);
                        inserted += 1;
                    },
                }
            }
            i += 1;
        }
        let ghost moved = self@;
        let ghost doomed = |b: BookView| is_doomed(b, names);
        let mut deleted: usize = 0;
        let mut j: usize = 0;
        proof {
            filter_none(locals, doomed);
        }
        while j < rows.len()
            invariant
                j <= rows@.len(),
                self.wf(),
                names == strs(remote_files@),
                rows_are(rows@, locals),
                doomed == |b: BookView| is_doomed(b, names),
                deleted <= j,
                deleted == locals.take(j as int).filter(doomed).len(),
                self@ == pruned_first(moved, locals, names, j as nat),
            decreases rows@.len() - j,
        {
            proof {
                filter_step(locals, j as int, doomed);
            }
            if !rows[j].file.as_str().is_empty() && !has_string(remote_files, &rows[j].file) {
                let id: i64 = rows[j].id;
                self.drop_belongings(id);
                self.remove_book_row(id);
                proof {
                    assert((|b: BookView| b.id != id) =~= (|b: BookView| b.id != id as int));
                }
                deleted += 1;
            }
            j += 1;
        }
        proof {
            take_all(locals);
        }
        if updated > 0 || inserted > 0 || deleted > 0 {
            self.seed_cover_refs();
        }
        Ok(ReplaceStats { updated, inserted, deleted })
    }
}

proof fn filter_prefix_of<A>(s: Seq<A>, n: int, f: spec_fn(A) -> bool)
    requires
        0 <= n <= s.len(),
    ensures
        s.take(n).filter(f).is_prefix_of(s.filter(f)),
    decreases s.len() - n,
{
    if n < s.len() {
        filter_prefix_of(s, n + 1, f);
        filter_step(s, n, f);
    } else {
        take_all(s);
    }
}

proof fn needs_grow(
    r: CatalogView,
    rows: Seq<BookView>,
    files: Seq<Seq<char>>,
    k: nat,
    n: nat,
)
    requires
        k <= n,
    ensures
        inserts_first(r, rows, files, k) <= inserts_first(r, rows, files, n),
        comments_needed(r, files, k) <= comments_needed(r, files, n),
        sources_needed(r, files, k) <= sources_needed(r, files, n),
    decreases n,
{
    if k < n {
        needs_grow(r, rows, files, k, (n - 1) as nat);
    }
}

// ---- what a replacement leaves and what it brings ----

proof fn belongings_keep_books(
    c: CatalogView,
    r: CatalogView,
    from: int,
    to: int,
    covers: Seq<CoverFile>,
)
    ensures
        belongings_added(c, r, from, to, covers).books == c.books,
        belongings_added(c, r, from, to, covers).last_book == c.last_book,
{
    let xs = plain_comments(r, from);
    let ys = sources_of(r.sources, from);
    comments_added_keeps(c, xs, to, xs.len());
    sources_added_keeps(comments_added(c, xs, to, xs.len()), ys, to, covers, ys.len());
}

proof fn comments_added_keeps(c: CatalogView, xs: Seq<CommentView>, book: int, n: nat)
    ensures
        comments_added(c, xs, book, n).books == c.books,
        comments_added(c, xs, book, n).last_book == c.last_book,
        comments_added(c, xs, book, n).sources == c.sources,
        forall|x: CommentView|
            c.comments.contains(x) ==> #[trigger] comments_added(
                c,
                xs,
                book,
                n,
            ).comments.contains(x),
    decreases n,
{
    if n > 0 {
        comments_added_keeps(c, xs, book, (n - 1) as nat);
        let d = comments_added(c, xs, book, (n - 1) as nat);
        let e = comments_added(c, xs, book, n);
        assert forall|x: CommentView| c.comments.contains(x) implies #[trigger] e.comments.contains(
            x,
        ) by {
            assert(d.comments.contains(x));
            let i = choose|i: int| 0 <= i < d.comments.len() && d.comments[i] == x;
            assert(e.comments[i] == x);
        }
    }
}

proof fn sources_added_keeps(
    c: CatalogView,
    xs: Seq<SourceView>,
    book: int,
    covers: Seq<CoverFile>,
    n: nat,
)
    ensures
        sources_added(c, xs, book, covers, n).books == c.books,
        sources_added(c, xs, book, covers, n).last_book == c.last_book,
        sources_added(c, xs, book, covers, n).comments == c.comments,
        forall|x: SourceView|
            c.sources.contains(x) ==> #[trigger] sources_added(
                c,
                xs,
                book,
                covers,
                n,
            ).sources.contains(x),
    decreases n,
{
    if n > 0 {
        sources_added_keeps(c, xs, book, covers, (n - 1) as nat);
        let d = sources_added(c, xs, book, covers, (n - 1) as nat);
        let e = sources_added(c, xs, book, covers, n);
        assert forall|x: SourceView| c.sources.contains(x) implies #[trigger] e.sources.contains(
            x,
        ) by {
            assert(d.sources.contains(x));
            let i = choose|i: int| 0 <= i < d.sources.len() && d.sources[i] == x;
            assert(e.sources[i] == x);
        }
    }
}

/// Whether a book is out of reach of a replacement of `library`: it is in another
/// library, or has no file.
pub open spec fn out_of_reach(b: BookView, library: Seq<char>) -> bool {
    b.library_id != Some(library) || file_of(b).len() == 0
}

proof fn row_with_file_is_row(rows: Seq<BookView>, file: Seq<char>)
    ensures
        match row_with_file(rows, file) {
            Some(id) => exists|i: int|
                0 <= i < rows.len() && (#[trigger] rows[i]).id == id && file_of(rows[i]) == file,
            None => forall|i: int| 0 <= i < rows.len() ==> file_of(#[trigger] rows[i]) != file,
        },
    decreases rows.len(),
{
    if rows.len() > 0 {
        if file_of(rows.last()) == file {
            assert(rows[rows.len() - 1].id == rows.last().id);
        } else {
            let init = rows.drop_last();
            row_with_file_is_row(init, file);
            match row_with_file(init, file) {
                Some(id) => {
                    let i = choose|i: int|
                        0 <= i < init.len() && (#[trigger] init[i]).id == id && file_of(init[i])
                            == file;
                    assert(rows[i].id == id && file_of(rows[i]) == file);
                },
                None => {
                    assert forall|i: int| 0 <= i < rows.len() implies file_of(#[trigger] rows[i])
                        != file by {
                        if i < init.len() {
                            assert(init[i] == rows[i]);
                        }
                    }
                },
            }
        }
    }
}

/// A local row of the library is a book of the catalogue.
proof fn local_row_is_book(c: CatalogView, library: Seq<char>, i: int) -> (k: int)
    requires
        0 <= i < local_rows(c, library).len(),
    ensures
        0 <= k < c.books.len(),
        c.books[k] == local_rows(c, library)[i],
        c.books[k].library_id == Some(library),
{
    let f = |b: BookView| b.library_id == Some(library);
    filter_from(c.books, f);
    assert(c.books.contains(c.books.filter(f)[i]));
    choose|k: int| 0 <= k < c.books.len() && c.books[k] == c.books.filter(f)[i]
}

proof fn same_id_same_book(c: CatalogView, i: int, j: int)
    requires
        c.wf(),
        0 <= i < c.books.len(),
        0 <= j < c.books.len(),
        c.books[i].id == c.books[j].id,
    ensures
        i == j,
{
    if i < j {
        assert(c.books[i].id < c.books[j].id);
    } else if j < i {
        assert(c.books[j].id < c.books[i].id);
    }
}

/// Neither overwriting nor taking out reaches a book that is out of reach.
proof fn target_is_another(
    c: CatalogView,
    library: Seq<char>,
    k: int,
    file: Seq<char>,
)
    requires
        c.wf(),
        0 <= k < c.books.len(),
        out_of_reach(c.books[k], library),
        file.len() > 0,
    ensures
        row_with_file(local_rows(c, library), file) != Some(c.books[k].id),
{
    let rows = local_rows(c, library);
    row_with_file_is_row(rows, file);
    if row_with_file(rows, file) == Some(c.books[k].id) {
        let i = choose|i: int|
            0 <= i < rows.len() && (#[trigger] rows[i]).id == c.books[k].id && file_of(rows[i])
                == file;
        let q = local_row_is_book(c, library, i);
        same_id_same_book(c, k, q);
    }
}

proof fn replaced_first_leaves(
    c: CatalogView,
    r: CatalogView,
    library: Seq<char>,
    files: Seq<Seq<char>>,
    covers: Seq<CoverFile>,
    k: int,
    n: nat,
)
    requires
        c.wf(),
        n <= r.books.len(),
        0 <= k < c.books.len(),
        out_of_reach(c.books[k], library),
    ensures
        ({
            let d = replaced_first(c, r, library, files, covers, n);
            let id = c.books[k].id;
            &&& d.books.contains(c.books[k])
            &&& forall|x: CommentView|
                x.book_id == id && c.comments.contains(x) ==> #[trigger] d.comments.contains(x)
            &&& forall|x: SourceView|
                x.book_id == id && c.sources.contains(x) ==> #[trigger] d.sources.contains(x)
        }),
    decreases n,
{
    if n > 0 {
        replaced_first_leaves(c, r, library, files, covers, k, (n - 1) as nat);
        let d = replaced_first(c, r, library, files, covers, (n - 1) as nat);
        let e = replaced_first(c, r, library, files, covers, n);
        let b = r.books[n - 1];
        let y = c.books[k];
        let cover = rebased_opt(b.cover_path, covers);
        let rows = local_rows(c, library);
        let p = choose|p: int| 0 <= p < d.books.len() && d.books[p] == y;
        if in_scope(b, files) {
            target_is_another(c, library, k, file_of(b));
            match row_with_file(rows, file_of(b)) {
                Some(id) => {
                    let w = with_book(d, id, |l: BookView| overwritten(l, b, cover));
                    let v = belongings_dropped(w, id);
                    belongings_keep_books(v, r, b.id, id, covers);
                    assert(w.books[p] == y);
                    assert(e.books[p] == y);
                    let xs = plain_comments(r, b.id);
                    let ys = sources_of(r.sources, b.id);
                    comments_added_keeps(v, xs, id, xs.len());
                    sources_added_keeps(comments_added(v, xs, id, xs.len()), ys, id, covers, ys.len());
                    assert forall|x: CommentView|
                        x.book_id == y.id && c.comments.contains(x) implies #[trigger] e.comments.contains(x) by {
                        assert(d.comments.contains(x));
                        let q = choose|q: int| 0 <= q < d.comments.len() && d.comments[q] == x;
                        d.comments.lemma_filter_contains(|z: CommentView| z.book_id != id, q);
                        assert(v.comments.contains(x));
                    }
                    assert forall|x: SourceView|
                        x.book_id == y.id && c.sources.contains(x) implies #[trigger] e.sources.contains(x) by {
                        assert(d.sources.contains(x));
                        let q = choose|q: int| 0 <= q < d.sources.len() && d.sources[q] == x;
                        d.sources.lemma_filter_contains(|z: SourceView| z.book_id != id, q);
                        assert(v.sources.contains(x));
                        assert(comments_added(v, xs, id, xs.len()).sources.contains(x));
                    }
                },
                None => {
                    let w = with_new_book(d, imported(b, cover, library));
                    let id = d.last_book + 1;
                    belongings_keep_books(w, r, b.id, id, covers);
                    assert(w.books[p] == y);
                    assert(e.books[p] == y);
                    let xs = plain_comments(r, b.id);
                    let ys = sources_of(r.sources, b.id);
                    comments_added_keeps(w, xs, id, xs.len());
                    sources_added_keeps(comments_added(w, xs, id, xs.len()), ys, id, covers, ys.len());
                    assert forall|x: CommentView|
                        x.book_id == y.id && c.comments.contains(x) implies #[trigger] e.comments.contains(x) by {
                        assert(d.comments.contains(x));
                        assert(w.comments.contains(x));
                    }
                    assert forall|x: SourceView|
                        x.book_id == y.id && c.sources.contains(x) implies #[trigger] e.sources.contains(x) by {
                        assert(d.sources.contains(x));
                        assert(comments_added(w, xs, id, xs.len()).sources.contains(x));
                    }
                },
            }
        }
    }
}

proof fn pruning_leaves(
    c: CatalogView,
    d: CatalogView,
    library: Seq<char>,
    files: Seq<Seq<char>>,
    k: int,
    n: nat,
)
    requires
        c.wf(),
        n <= local_rows(c, library).len(),
        0 <= k < c.books.len(),
        out_of_reach(c.books[k], library),
        d.books.contains(c.books[k]),
    ensures
        ({
            let e = pruned_first(d, local_rows(c, library), files, n);
            let id = c.books[k].id;
            &&& e.books.contains(c.books[k])
            &&& forall|x: CommentView|
                x.book_id == id && d.comments.contains(x) ==> #[trigger] e.comments.contains(x)
            &&& forall|x: SourceView|
                x.book_id == id && d.sources.contains(x) ==> #[trigger] e.sources.contains(x)
        }),
    decreases n,
{
    if n > 0 {
        let rows = local_rows(c, library);
        pruning_leaves(c, d, library, files, k, (n - 1) as nat);
        let before = pruned_first(d, rows, files, (n - 1) as nat);
        let e = pruned_first(d, rows, files, n);
        let y = c.books[k];
        if is_doomed(rows[n - 1], files) {
            let q = local_row_is_book(c, library, n - 1);
            let id = rows[n - 1].id;
            if id == y.id {
                same_id_same_book(c, k, q);
            }
            let p = choose|p: int| 0 <= p < before.books.len() && before.books[p] == y;
            before.books.lemma_filter_contains(|b: BookView| b.id != id, p);
            assert forall|x: CommentView|
                x.book_id == y.id && d.comments.contains(x) implies #[trigger] e.comments.contains(x) by {
                assert(before.comments.contains(x));
                let i = choose|i: int| 0 <= i < before.comments.len() && before.comments[i] == x;
                before.comments.lemma_filter_contains(|z: CommentView| z.book_id != id, i);
            }
            assert forall|x: SourceView|
                x.book_id == y.id && d.sources.contains(x) implies #[trigger] e.sources.contains(x) by {
                assert(before.sources.contains(x));
                let i = choose|i: int| 0 <= i < before.sources.len() && before.sources[i] == x;
                before.sources.lemma_filter_contains(|z: SourceView| z.book_id != id, i);
            }
        }
    }
}

/// Books of other libraries and books without a file stay as they are, with their
/// comments and their sources.
pub proof fn books_out_of_reach_stay(
    c: CatalogView,
    r: CatalogView,
    library: Seq<char>,
    files: Seq<Seq<char>>,
    covers: Seq<CoverFile>,
    k: int,
)
    requires
        c.wf(),
        0 <= k < c.books.len(),
        out_of_reach(c.books[k], library),
    ensures
        ({
            let e = replaced(c, r, library, files, covers);
            let id = c.books[k].id;
            &&& e.books.contains(c.books[k])
            &&& forall|x: CommentView|
                x.book_id == id && c.comments.contains(x) ==> #[trigger] e.comments.contains(x)
            &&& forall|x: SourceView|
                x.book_id == id && c.sources.contains(x) ==> #[trigger] e.sources.contains(x)
        }),
{
    let d = replaced_first(c, r, library, files, covers, r.books.len());
    replaced_first_leaves(c, r, library, files, covers, k, r.books.len());
    pruning_leaves(c, d, library, files, k, local_rows(c, library).len());
}

/// Whether a book of the library is a local one with its file, or has a file that the
/// remote library holds.
spec fn accounted(y: BookView, c: CatalogView, library: Seq<char>, files: Seq<Seq<char>>) -> bool {
    y.library_id == Some(library) ==> files.contains(file_of(y)) || exists|i: int|
        0 <= i < local_rows(c, library).len() && (#[trigger] local_rows(c, library)[i]).id == y.id
            && file_of(local_rows(c, library)[i]) == file_of(y)
}

proof fn replaced_first_accounts(
    c: CatalogView,
    r: CatalogView,
    library: Seq<char>,
    files: Seq<Seq<char>>,
    covers: Seq<CoverFile>,
    n: nat,
)
    requires
        n <= r.books.len(),
    ensures
        forall|i: int|
            0 <= i < replaced_first(c, r, library, files, covers, n).books.len() ==> accounted(
                #[trigger] replaced_first(c, r, library, files, covers, n).books[i],
                c,
                library,
                files,
            ),
    decreases n,
{
    let rows = local_rows(c, library);
    let e = replaced_first(c, r, library, files, covers, n);
    if n == 0 {
        assert forall|i: int| 0 <= i < e.books.len() implies accounted(
            #[trigger] e.books[i],
            c,
            library,
            files,
        ) by {
            let y = e.books[i];
            let f = |b: BookView| b.library_id == Some(library);
            if y.library_id == Some(library) {
                c.books.lemma_filter_contains(f, i);
                assert(rows.contains(y));
                let q = choose|q: int| 0 <= q < rows.len() && rows[q] == y;
                assert(rows[q].id == y.id && file_of(rows[q]) == file_of(y));
            }
        }
    } else {
        replaced_first_accounts(c, r, library, files, covers, (n - 1) as nat);
        let d = replaced_first(c, r, library, files, covers, (n - 1) as nat);
        let b = r.books[n - 1];
        let cover = rebased_opt(b.cover_path, covers);
        if in_scope(b, files) {
            match row_with_file(rows, file_of(b)) {
                Some(id) => {
                    let w = with_book(d, id, |l: BookView| overwritten(l, b, cover));
                    belongings_keep_books(belongings_dropped(w, id), r, b.id, id, covers);
                    assert forall|i: int| 0 <= i < e.books.len() implies accounted(
                        #[trigger] e.books[i],
                        c,
                        library,
                        files,
                    ) by {
                        assert(accounted(d.books[i], c, library, files));
                        assert(e.books[i] == w.books[i]);
                    }
                },
                None => {
                    let w = with_new_book(d, imported(b, cover, library));
                    belongings_keep_books(w, r, b.id, d.last_book + 1, covers);
                    assert forall|i: int| 0 <= i < e.books.len() implies accounted(
                        #[trigger] e.books[i],
                        c,
                        library,
                        files,
                    ) by {
                        assert(e.books[i] == w.books[i]);
                        if i < d.books.len() {
                            assert(accounted(d.books[i], c, library, files));
                        }
                    }
                },
            }
        }
    }
}

proof fn pruning_takes_out(
    d: CatalogView,
    rows: Seq<BookView>,
    files: Seq<Seq<char>>,
    n: nat,
)
    requires
        n <= rows.len(),
    ensures
        ({
            let e = pruned_first(d, rows, files, n);
            &&& forall|i: int| 0 <= i < e.books.len() ==> d.books.contains(#[trigger] e.books[i])
            &&& forall|i: int, k: int|
                0 <= i < e.books.len() && 0 <= k < n && is_doomed(rows[k], files) ==> (
                #[trigger] e.books[i]).id != (#[trigger] rows[k]).id
        }),
    decreases n,
{
    if n > 0 {
        pruning_takes_out(d, rows, files, (n - 1) as nat);
        let before = pruned_first(d, rows, files, (n - 1) as nat);
        let e = pruned_first(d, rows, files, n);
        if is_doomed(rows[n - 1], files) {
            let f = |b: BookView| b.id != rows[n - 1].id;
            filter_from(before.books, f);
            assert forall|i: int| 0 <= i < e.books.len() implies d.books.contains(
                #[trigger] e.books[i],
            ) by {
                assert(before.books.contains(before.books.filter(f)[i]));
                let q = choose|q: int| 0 <= q < before.books.len() && before.books[q] == e.books[i];
                assert(d.books.contains(before.books[q]));
            }
            assert forall|i: int, k: int|
                0 <= i < e.books.len() && 0 <= k < n && is_doomed(rows[k], files) implies (
            #[trigger] e.books[i]).id != (#[trigger] rows[k]).id by {
                assert(before.books.contains(before.books.filter(f)[i]));
                let q = choose|q: int| 0 <= q < before.books.len() && before.books[q] == e.books[i];
                if k < n - 1 {
                    assert(before.books[q].id != rows[k].id);
                }
            }
        }
    }
}

/// After the replacement every book of the library that has a file has one that the
/// remote library holds.
pub proof fn no_book_is_left_over(
    c: CatalogView,
    r: CatalogView,
    library: Seq<char>,
    files: Seq<Seq<char>>,
    covers: Seq<CoverFile>,
)
    ensures
        forall|i: int|
            0 <= i < replaced(c, r, library, files, covers).books.len() && (
            #[trigger] replaced(c, r, library, files, covers).books[i]).library_id == Some(library)
                && file_of(replaced(c, r, library, files, covers).books[i]).len() > 0
                ==> files.contains(file_of(replaced(c, r, library, files, covers).books[i])),
{
    let rows = local_rows(c, library);
    let d = replaced_first(c, r, library, files, covers, r.books.len());
    let e = replaced(c, r, library, files, covers);
    replaced_first_accounts(c, r, library, files, covers, r.books.len());
    pruning_takes_out(d, rows, files, rows.len());
    assert forall|i: int|
        0 <= i < e.books.len() && (#[trigger] e.books[i]).library_id == Some(library) && file_of(
            e.books[i],
        ).len() > 0 implies files.contains(file_of(e.books[i])) by {
        let y = e.books[i];
        assert(d.books.contains(y));
        let q = choose|q: int| 0 <= q < d.books.len() && d.books[q] == y;
        assert(accounted(d.books[q], c, library, files));
        if !files.contains(file_of(y)) {
            let k = choose|k: int|
                0 <= k < rows.len() && (#[trigger] rows[k]).id == y.id && file_of(rows[k])
                    == file_of(y);
            assert(is_doomed(rows[k], files));
            assert(e.books[i].id != rows[k].id);
        }
    }
}

/// Whether `y` is the local book that the remote book `b` came to.
pub open spec fn came_over(
    y: BookView,
    b: BookView,
    library: Seq<char>,
    covers: Seq<CoverFile>,
) -> bool {
    &&& y.library_id == Some(library)
    &&& file_of(y) == file_of(b)
    &&& y.title == b.title
    &&& y.author == Some(coalesce(b.author, ""@))
    &&& y.tags == Some(coalesce(b.tags, ""@))
    &&& y.status == Some(coalesce(b.status, "想读"@))
    &&& y.my_review == Some(coalesce(b.my_review, ""@))
    &&& y.finished_date == b.finished_date
    &&& y.description == Some(coalesce(b.description, ""@))
    &&& y.cover_path == rebased_opt(b.cover_path, covers)
    &&& y.series_name == b.series_name
    &&& y.series_order == b.series_order
    &&& y.clasp_ids == Some(coalesce(b.clasp_ids, "[]"@))
    &&& y.merged_from == Some(coalesce(b.merged_from, ""@))
    &&& y.douban_urls == Some(coalesce(b.douban_urls, "[]"@))
}

/// Whether `id` is that of the last local row with this file, or a new one.
spec fn arrival_id(c: CatalogView, library: Seq<char>, file: Seq<char>, id: int) -> bool {
    match row_with_file(local_rows(c, library), file) {
        Some(t) => id == t,
        None => id > c.last_book,
    }
}

/// Whether no comment and no source names a book that there never was.
pub open spec fn names_known_books(c: CatalogView) -> bool {
    &&& forall|i: int|
        0 <= i < c.comments.len() ==> (#[trigger] c.comments[i]).book_id <= c.last_book
    &&& forall|i: int| 0 <= i < c.sources.len() ==> (#[trigger] c.sources[i]).book_id <= c.last_book
}

/// Whether `z` says what the comment `x` says.
pub open spec fn same_comment(z: CommentView, x: CommentView) -> bool {
    &&& z.rating == x.rating
    &&& z.content == x.content
    &&& z.usefulness == x.usefulness
    &&& z.source == x.source
    &&& z.is_mine == x.is_mine
    &&& z.source_ref == x.source_ref
}

/// Whether `z` holds what the source `x` holds, its cover found again.
pub open spec fn same_source(z: SourceView, x: SourceView, covers: Seq<CoverFile>) -> bool {
    &&& z.kind == x.kind
    &&& z.ref_key == x.ref_key
    &&& z.position == x.position
    &&& z.title == x.title
    &&& z.author == x.author
    &&& z.cover_url == x.cover_url
    &&& z.cover_path == rebased_opt(x.cover_path, covers)
    &&& z.summary == x.summary
    &&& z.tags == x.tags
    &&& z.series_name == x.series_name
    &&& z.series_order == x.series_order
    &&& z.editions == x.editions
}

/// Whether the comments and the sources of the book `to` are those of the remote book `from`.
pub open spec fn has_belongings(
    d: CatalogView,
    r: CatalogView,
    from: int,
    to: int,
    covers: Seq<CoverFile>,
) -> bool {
    let zs = d.comments.filter(|x: CommentView| x.book_id == to);
    let xs = r.comments.filter(|x: CommentView| x.book_id == from);
    let ws = d.sources.filter(|x: SourceView| x.book_id == to);
    let ys = sources_of(r.sources, from);
    &&& zs.len() == xs.len()
    &&& forall|m: int| 0 <= m < xs.len() ==> same_comment(#[trigger] zs[m], xs[m])
    &&& ws.len() == ys.len()
    &&& forall|m: int| 0 <= m < ys.len() ==> same_source(#[trigger] ws[m], ys[m], covers)
}

proof fn added_comments(c: CatalogView, xs: Seq<CommentView>, book: int, n: nat, q: int)
    requires
        n <= xs.len(),
    ensures
        ({
            let f = |x: CommentView| x.book_id == q;
            let was = c.comments.filter(f);
            let now = comments_added(c, xs, book, n).comments.filter(f);
            if q == book {
                &&& now.len() == was.len() + n
                &&& forall|m: int|
                    was.len() <= m < now.len() ==> same_comment(#[trigger] now[m], xs[m - was.len()])
            } else {
                now == was
            }
        }),
        forall|i: int|
            0 <= i < comments_added(c, xs, book, n).comments.len() ==> c.comments.contains(
                #[trigger] comments_added(c, xs, book, n).comments[i],
            ) || comments_added(c, xs, book, n).comments[i].book_id == book,
    decreases n,
{
    let e = comments_added(c, xs, book, n);
    if n > 0 {
        added_comments(c, xs, book, (n - 1) as nat, q);
        let d = comments_added(c, xs, book, (n - 1) as nat);
        let x = CommentView { id: d.last_comment + 1, book_id: book, ..xs[n - 1] };
        filter_push(d.comments, x, |x: CommentView| x.book_id == q);
        assert forall|i: int| 0 <= i < e.comments.len() implies c.comments.contains(
            #[trigger] e.comments[i],
        ) || e.comments[i].book_id == book by {
            if i < d.comments.len() {
                assert(e.comments[i] == d.comments[i]);
            }
        }
    } else {
        assert forall|i: int| 0 <= i < e.comments.len() implies c.comments.contains(
            #[trigger] e.comments[i],
        ) by {
            assert(c.comments[i] == e.comments[i]);
        }
    }
}

proof fn added_sources(
    c: CatalogView,
    xs: Seq<SourceView>,
    book: int,
    covers: Seq<CoverFile>,
    n: nat,
    q: int,
)
    requires
        n <= xs.len(),
    ensures
        ({
            let f = |x: SourceView| x.book_id == q;
            let was = c.sources.filter(f);
            let now = sources_added(c, xs, book, covers, n).sources.filter(f);
            if q == book {
                &&& now.len() == was.len() + n
                &&& forall|m: int|
                    was.len() <= m < now.len() ==> same_source(
                        #[trigger] now[m],
                        xs[m - was.len()],
                        covers,
                    )
            } else {
                now == was
            }
        }),
        forall|i: int|
            0 <= i < sources_added(c, xs, book, covers, n).sources.len() ==> c.sources.contains(
                #[trigger] sources_added(c, xs, book, covers, n).sources[i],
            ) || sources_added(c, xs, book, covers, n).sources[i].book_id == book,
    decreases n,
{
    let e = sources_added(c, xs, book, covers, n);
    if n > 0 {
        added_sources(c, xs, book, covers, (n - 1) as nat, q);
        let d = sources_added(c, xs, book, covers, (n - 1) as nat);
        let x = SourceView {
            id: d.last_source + 1,
            book_id: book,
            cover_path: rebased_opt(xs[n - 1].cover_path, covers),
            ..xs[n - 1]
        };
        filter_push(d.sources, x, |x: SourceView| x.book_id == q);
        assert forall|i: int| 0 <= i < e.sources.len() implies c.sources.contains(
            #[trigger] e.sources[i],
        ) || e.sources[i].book_id == book by {
            if i < d.sources.len() {
                assert(e.sources[i] == d.sources[i]);
            }
        }
    } else {
        assert forall|i: int| 0 <= i < e.sources.len() implies c.sources.contains(
            #[trigger] e.sources[i],
        ) by {
            assert(c.sources[i] == e.sources[i]);
        }
    }
}

/// What comes over with a book is its own, and nothing else changes.
proof fn belongings_come(
    c: CatalogView,
    r: CatalogView,
    from: int,
    to: int,
    covers: Seq<CoverFile>,
    q: int,
)
    ensures
        ({
            let e = belongings_added(c, r, from, to, covers);
            let f = |x: CommentView| x.book_id == q;
            let g = |x: SourceView| x.book_id == q;
            &&& q != to ==> e.comments.filter(f) == c.comments.filter(f) && e.sources.filter(g)
                == c.sources.filter(g)
            &&& q == to && c.comments.filter(f).len() == 0 && c.sources.filter(g).len() == 0
                ==> has_belongings(e, r, from, to, covers)
            &&& forall|i: int|
                0 <= i < e.comments.len() ==> c.comments.contains(#[trigger] e.comments[i])
                    || e.comments[i].book_id == to
            &&& forall|i: int|
                0 <= i < e.sources.len() ==> c.sources.contains(#[trigger] e.sources[i])
                    || e.sources[i].book_id == to
        }),
{
    let xs = plain_comments(r, from);
    let ys = sources_of(r.sources, from);
    let d = comments_added(c, xs, to, xs.len());
    comments_added_keeps(c, xs, to, xs.len());
    sources_added_keeps(d, ys, to, covers, ys.len());
    added_comments(c, xs, to, xs.len(), q);
    added_sources(d, ys, to, covers, ys.len(), q);
}

proof fn dropped_belongings(c: CatalogView, book: int, q: int)
    ensures
        ({
            let e = belongings_dropped(c, book);
            let f = |x: CommentView| x.book_id == q;
            let g = |x: SourceView| x.book_id == q;
            &&& q != book ==> e.comments.filter(f) == c.comments.filter(f) && e.sources.filter(g)
                == c.sources.filter(g)
            &&& q == book ==> e.comments.filter(f).len() == 0 && e.sources.filter(g).len() == 0
            &&& forall|i: int|
                0 <= i < e.comments.len() ==> c.comments.contains(#[trigger] e.comments[i])
            &&& forall|i: int|
                0 <= i < e.sources.len() ==> c.sources.contains(#[trigger] e.sources[i])
        }),
{
    let e = belongings_dropped(c, book);
    let f = |x: CommentView| x.book_id == q;
    let g = |x: SourceView| x.book_id == q;
    let a = |x: CommentView| x.book_id != book;
    let b = |s: SourceView| s.book_id != book;
    filter_from(c.comments, a);
    filter_from(c.sources, b);
    if q != book {
        filter_narrows(c.comments, a, f);
        filter_narrows(c.sources, b, g);
    } else {
        filter_away(e.comments, f);
        filter_away(e.sources, g);
    }
}

proof fn still_names_known_books(
    c: CatalogView,
    r: CatalogView,
    library: Seq<char>,
    files: Seq<Seq<char>>,
    covers: Seq<CoverFile>,
    n: nat,
)
    requires
        c.wf(),
        names_known_books(c),
        n <= r.books.len(),
    ensures
        names_known_books(replaced_first(c, r, library, files, covers, n)),
    decreases n,
{
    if n > 0 {
        still_names_known_books(c, r, library, files, covers, (n - 1) as nat);
        last_book_grows(c, r, library, files, covers, (n - 1) as nat);
        let rows = local_rows(c, library);
        let d = replaced_first(c, r, library, files, covers, (n - 1) as nat);
        let e = replaced_first(c, r, library, files, covers, n);
        let b = r.books[n - 1];
        let cover = rebased_opt(b.cover_path, covers);
        if in_scope(b, files) {
            let (v, id) = match row_with_file(rows, file_of(b)) {
                Some(id) => (
                    belongings_dropped(
                        with_book(d, id, |l: BookView| overwritten(l, b, cover)),
                        id,
                    ),
                    id,
                ),
                None => (with_new_book(d, imported(b, cover, library)), d.last_book + 1),
            };
            row_with_file_is_row(rows, file_of(b));
            if row_with_file(rows, file_of(b)) is Some {
                let q = choose|q: int|
                    0 <= q < rows.len() && (#[trigger] rows[q]).id == id && file_of(rows[q])
                        == file_of(b);
                let k = local_row_is_book(c, library, q);
                assert(c.books[k].id <= c.last_book);
                dropped_belongings(
                    with_book(d, id, |l: BookView| overwritten(l, b, cover)),
                    id,
                    id,
                );
            }
            belongings_keep_books(v, r, b.id, id, covers);
            belongings_come(v, r, b.id, id, covers, id);
            assert(forall|x: CommentView| #[trigger] v.comments.contains(x) ==> d.comments.contains(x)) by {
                assert forall|x: CommentView| #[trigger] v.comments.contains(x) implies d.comments.contains(x) by {
                    let i = choose|i: int| 0 <= i < v.comments.len() && v.comments[i] == x;
                    assert(d.comments.contains(v.comments[i]));
                }
            }
            assert(forall|x: SourceView| #[trigger] v.sources.contains(x) ==> d.sources.contains(x)) by {
                assert forall|x: SourceView| #[trigger] v.sources.contains(x) implies d.sources.contains(x) by {
                    let i = choose|i: int| 0 <= i < v.sources.len() && v.sources[i] == x;
                    assert(d.sources.contains(v.sources[i]));
                }
            }
            assert forall|i: int| 0 <= i < e.comments.len() implies (
            #[trigger] e.comments[i]).book_id <= e.last_book by {
                if v.comments.contains(e.comments[i]) {
                    let k = choose|k: int| 0 <= k < d.comments.len() && d.comments[k] == e.comments[i];
                    assert(d.comments[k].book_id <= d.last_book);
                }
            }
            assert forall|i: int| 0 <= i < e.sources.len() implies (
            #[trigger] e.sources[i]).book_id <= e.last_book by {
                if v.sources.contains(e.sources[i]) {
                    let k = choose|k: int| 0 <= k < d.sources.len() && d.sources[k] == e.sources[i];
                    assert(d.sources[k].book_id <= d.last_book);
                }
            }
        }
    }
}

proof fn local_rows_stay(
    c: CatalogView,
    r: CatalogView,
    library: Seq<char>,
    files: Seq<Seq<char>>,
    covers: Seq<CoverFile>,
    k: int,
    n: nat,
)
    requires
        n <= r.books.len(),
        0 <= k < local_rows(c, library).len(),
    ensures
        ({
            let row = local_rows(c, library)[k];
            let d = replaced_first(c, r, library, files, covers, n);
            &&& d.last_book >= c.last_book
            &&& exists|i: int|
                0 <= i < d.books.len() && (#[trigger] d.books[i]).id == row.id
                    && d.books[i].library_id == Some(library) && file_of(d.books[i]) == file_of(row)
                    && d.books[i].file_path == row.file_path
        }),
    decreases n,
{
    let rows = local_rows(c, library);
    let row = rows[k];
    let e = replaced_first(c, r, library, files, covers, n);
    if n == 0 {
        let q = local_row_is_book(c, library, k);
        assert(e.books[q].id == row.id);
    } else {
        local_rows_stay(c, r, library, files, covers, k, (n - 1) as nat);
        let d = replaced_first(c, r, library, files, covers, (n - 1) as nat);
        let b = r.books[n - 1];
        let cover = rebased_opt(b.cover_path, covers);
        let i = choose|i: int|
            0 <= i < d.books.len() && (#[trigger] d.books[i]).id == row.id && d.books[i].library_id
                == Some(library) && file_of(d.books[i]) == file_of(row) && d.books[i].file_path
                == row.file_path;
        if in_scope(b, files) {
            match row_with_file(rows, file_of(b)) {
                Some(id) => {
                    let w = with_book(d, id, |l: BookView| overwritten(l, b, cover));
                    belongings_keep_books(belongings_dropped(w, id), r, b.id, id, covers);
                    assert(e.books[i] == w.books[i]);
                    assert(e.books[i].id == row.id);
                },
                None => {
                    let w = with_new_book(d, imported(b, cover, library));
                    belongings_keep_books(w, r, b.id, d.last_book + 1, covers);
                    assert(e.books[i] == w.books[i]);
                    assert(e.books[i].id == row.id);
                },
            }
        }
    }
}

proof fn last_book_grows(
    c: CatalogView,
    r: CatalogView,
    library: Seq<char>,
    files: Seq<Seq<char>>,
    covers: Seq<CoverFile>,
    n: nat,
)
    requires
        n <= r.books.len(),
    ensures
        replaced_first(c, r, library, files, covers, n).last_book >= c.last_book,
    decreases n,
{
    if n > 0 {
        last_book_grows(c, r, library, files, covers, (n - 1) as nat);
        let d = replaced_first(c, r, library, files, covers, (n - 1) as nat);
        let b = r.books[n - 1];
        let cover = rebased_opt(b.cover_path, covers);
        if in_scope(b, files) {
            match row_with_file(local_rows(c, library), file_of(b)) {
                Some(id) => {
                    let w = with_book(d, id, |l: BookView| overwritten(l, b, cover));
                    belongings_keep_books(belongings_dropped(w, id), r, b.id, id, covers);
                },
                None => {
                    let w = with_new_book(d, imported(b, cover, library));
                    belongings_keep_books(w, r, b.id, d.last_book + 1, covers);
                },
            }
        }
    }
}

/// Whether the book that a remote one came to is the last local one with its file, and still
/// names the place that it was taken from.
spec fn origin_kept(c: CatalogView, library: Seq<char>, b: BookView, y: BookView) -> bool {
    match row_with_file(local_rows(c, library), file_of(b)) {
        Some(t) => exists|q: int|
            0 <= q < local_rows(c, library).len() && (#[trigger] local_rows(c, library)[q]).id
                == y.id && file_of(local_rows(c, library)[q]) == file_of(y) && local_rows(
                c,
                library,
            )[q].file_path == y.file_path,
        None => y.file_path == Some(coalesce(b.file_path, ""@)),
    }
}

proof fn books_below_last(
    c: CatalogView,
    r: CatalogView,
    library: Seq<char>,
    files: Seq<Seq<char>>,
    covers: Seq<CoverFile>,
    n: nat,
)
    requires
        c.wf(),
        n <= r.books.len(),
    ensures
        forall|i: int|
            0 <= i < replaced_first(c, r, library, files, covers, n).books.len() ==> (
            #[trigger] replaced_first(c, r, library, files, covers, n).books[i]).id
                <= replaced_first(c, r, library, files, covers, n).last_book,
    decreases n,
{
    if n > 0 {
        books_below_last(c, r, library, files, covers, (n - 1) as nat);
        let d = replaced_first(c, r, library, files, covers, (n - 1) as nat);
        let e = replaced_first(c, r, library, files, covers, n);
        let b = r.books[n - 1];
        let cover = rebased_opt(b.cover_path, covers);
        if in_scope(b, files) {
            match row_with_file(local_rows(c, library), file_of(b)) {
                Some(id) => {
                    let w = with_book(d, id, |l: BookView| overwritten(l, b, cover));
                    belongings_keep_books(belongings_dropped(w, id), r, b.id, id, covers);
                    assert forall|i: int| 0 <= i < e.books.len() implies (#[trigger] e.books[i]).id
                        <= e.last_book by {
                        assert(e.books[i] == w.books[i]);
                        assert(d.books[i].id <= d.last_book);
                    }
                },
                None => {
                    let w = with_new_book(d, imported(b, cover, library));
                    belongings_keep_books(w, r, b.id, d.last_book + 1, covers);
                    assert forall|i: int| 0 <= i < e.books.len() implies (#[trigger] e.books[i]).id
                        <= e.last_book by {
                        assert(e.books[i] == w.books[i]);
                        if i < d.books.len() {
                            assert(d.books[i].id <= d.last_book);
                        }
                    }
                },
            }
        }
    }
}

proof fn arrives_and_stays(
    c: CatalogView,
    r: CatalogView,
    library: Seq<char>,
    files: Seq<Seq<char>>,
    covers: Seq<CoverFile>,
    k: int,
    n: nat,
)
    requires
        c.wf(),
        0 <= k < n <= r.books.len(),
        in_scope(r.books[k], files),
        forall|j: int|
            k < j < r.books.len() ==> file_of(#[trigger] r.books[j]) != file_of(r.books[k]),
    ensures
        ({
            let d = replaced_first(c, r, library, files, covers, n);
            exists|i: int|
                0 <= i < d.books.len() && came_over(
                    #[trigger] d.books[i],
                    r.books[k],
                    library,
                    covers,
                ) && arrival_id(c, library, file_of(r.books[k]), d.books[i].id) && origin_kept(
                    c,
                    library,
                    r.books[k],
                    d.books[i],
                ) && (names_known_books(c) ==> has_belongings(
                    d,
                    r,
                    r.books[k].id,
                    d.books[i].id,
                    covers,
                ))
        }),
    decreases n,
{
    let rows = local_rows(c, library);
    let b = r.books[n - 1];
    let cover = rebased_opt(b.cover_path, covers);
    let d = replaced_first(c, r, library, files, covers, (n - 1) as nat);
    let e = replaced_first(c, r, library, files, covers, n);
    row_with_file_is_row(rows, file_of(b));
    last_book_grows(c, r, library, files, covers, (n - 1) as nat);
    if names_known_books(c) {
        still_names_known_books(c, r, library, files, covers, (n - 1) as nat);
    }
    if k == n - 1 {
        match row_with_file(rows, file_of(b)) {
            Some(id) => {
                let q = choose|q: int|
                    0 <= q < rows.len() && (#[trigger] rows[q]).id == id && file_of(rows[q])
                        == file_of(b);
                local_rows_stay(c, r, library, files, covers, q, (n - 1) as nat);
                let i = choose|i: int|
                    0 <= i < d.books.len() && (#[trigger] d.books[i]).id == rows[q].id
                        && d.books[i].library_id == Some(library) && file_of(d.books[i]) == file_of(
                        rows[q],
                    ) && d.books[i].file_path == rows[q].file_path;
                let w = with_book(d, id, |l: BookView| overwritten(l, b, cover));
                belongings_keep_books(belongings_dropped(w, id), r, b.id, id, covers);
                dropped_belongings(w, id, id);
                belongings_come(belongings_dropped(w, id), r, b.id, id, covers, id);
                assert(e.books[i] == w.books[i]);
                assert(came_over(e.books[i], b, library, covers));
                assert(rows[q].id == e.books[i].id);
            },
            None => {
                let w = with_new_book(d, imported(b, cover, library));
                belongings_keep_books(w, r, b.id, d.last_book + 1, covers);
                let i = d.books.len() as int;
                assert(e.books[i] == w.books[i]);
                assert(came_over(e.books[i], b, library, covers));
                if names_known_books(c) {
                    let id = d.last_book + 1;
                    filter_away(w.comments, |x: CommentView| x.book_id == id);
                    filter_away(w.sources, |x: SourceView| x.book_id == id);
                    belongings_come(w, r, b.id, id, covers, id);
                }
            },
        }
    } else {
        arrives_and_stays(c, r, library, files, covers, k, (n - 1) as nat);
        let file = file_of(r.books[k]);
        let i = choose|i: int|
            0 <= i < d.books.len() && came_over(#[trigger] d.books[i], r.books[k], library, covers)
                && arrival_id(c, library, file, d.books[i].id) && origin_kept(
                c,
                library,
                r.books[k],
                d.books[i],
            ) && (names_known_books(c) ==> has_belongings(
                d,
                r,
                r.books[k].id,
                d.books[i].id,
                covers,
            ));
        let y = d.books[i];
        assert(file_of(b) != file);
        if in_scope(b, files) {
            match row_with_file(rows, file_of(b)) {
                Some(id) => {
                    let q = choose|q: int|
                        0 <= q < rows.len() && (#[trigger] rows[q]).id == id && file_of(rows[q])
                            == file_of(b);
                    let bq = local_row_is_book(c, library, q);
                    row_with_file_is_row(rows, file);
                    match row_with_file(rows, file) {
                        Some(t) => {
                            let p = choose|p: int|
                                0 <= p < rows.len() && (#[trigger] rows[p]).id == t && file_of(
                                    rows[p],
                                ) == file;
                            let bp = local_row_is_book(c, library, p);
                            if t == id {
                                same_id_same_book(c, bp, bq);
                            }
                        },
                        None => {
                            assert(c.books[bq].id <= c.last_book);
                        },
                    }
                    assert(y.id != id);
                    let w = with_book(d, id, |l: BookView| overwritten(l, b, cover));
                    belongings_keep_books(belongings_dropped(w, id), r, b.id, id, covers);
                    dropped_belongings(w, id, y.id);
                    belongings_come(belongings_dropped(w, id), r, b.id, id, covers, y.id);
                    assert(e.books[i] == w.books[i]);
                    assert(e.books[i] == y);
                },
                None => {
                    let w = with_new_book(d, imported(b, cover, library));
                    belongings_keep_books(w, r, b.id, d.last_book + 1, covers);
                    books_below_last(c, r, library, files, covers, (n - 1) as nat);
                    assert(y.id <= d.last_book);
                    belongings_come(w, r, b.id, d.last_book + 1, covers, y.id);
                    assert(e.books[i] == w.books[i]);
                    assert(e.books[i] == y);
                },
            }
        } else {
            assert(e.books[i] == y);
        }
    }
}

proof fn pruning_leaves_arrival(
    c: CatalogView,
    d: CatalogView,
    library: Seq<char>,
    files: Seq<Seq<char>>,
    y: BookView,
    n: nat,
)
    requires
        c.wf(),
        n <= local_rows(c, library).len(),
        d.books.contains(y),
        files.contains(file_of(y)),
        arrival_id(c, library, file_of(y), y.id),
    ensures
        ({
            let e = pruned_first(d, local_rows(c, library), files, n);
            let f = |x: CommentView| x.book_id == y.id;
            let g = |x: SourceView| x.book_id == y.id;
            &&& e.books.contains(y)
            &&& e.comments.filter(f) == d.comments.filter(f)
            &&& e.sources.filter(g) == d.sources.filter(g)
        }),
    decreases n,
{
    if n > 0 {
        let rows = local_rows(c, library);
        pruning_leaves_arrival(c, d, library, files, y, (n - 1) as nat);
        let before = pruned_first(d, rows, files, (n - 1) as nat);
        if is_doomed(rows[n - 1], files) {
            let q = local_row_is_book(c, library, n - 1);
            let id = rows[n - 1].id;
            row_with_file_is_row(rows, file_of(y));
            match row_with_file(rows, file_of(y)) {
                Some(t) => {
                    let p = choose|p: int|
                        0 <= p < rows.len() && (#[trigger] rows[p]).id == t && file_of(rows[p])
                            == file_of(y);
                    let bp = local_row_is_book(c, library, p);
                    if t == id {
                        same_id_same_book(c, bp, q);
                    }
                },
                None => {
                    assert(c.books[q].id <= c.last_book);
                },
            }
            let i = choose|i: int| 0 <= i < before.books.len() && before.books[i] == y;
            before.books.lemma_filter_contains(|b: BookView| b.id != id, i);
            filter_narrows(
                before.comments,
                |x: CommentView| x.book_id != id,
                |x: CommentView| x.book_id == y.id,
            );
            filter_narrows(
                before.sources,
                |s: SourceView| s.book_id != id,
                |x: SourceView| x.book_id == y.id,
            );
        }
    }
}

/// Every remote book of the library that no later one shares its file with is there after
/// the replacement: a book of the library with its file, whose title, authors, tags, state,
/// review, date, description, cover, series, entries, origin and pages are the remote ones.
/// Where the library had a book with the file, it is that book, and it still names the place
/// that it was taken from.
pub proof fn remote_books_arrive(
    c: CatalogView,
    r: CatalogView,
    library: Seq<char>,
    files: Seq<Seq<char>>,
    covers: Seq<CoverFile>,
    k: int,
) -> (i: int)
    requires
        c.wf(),
        0 <= k < r.books.len(),
        in_scope(r.books[k], files),
        forall|j: int|
            k < j < r.books.len() ==> file_of(#[trigger] r.books[j]) != file_of(r.books[k]),
    ensures
        0 <= i < replaced(c, r, library, files, covers).books.len(),
        ({
            let b = r.books[k];
            let y = replaced(c, r, library, files, covers).books[i];
            &&& y.library_id == Some(library)
            &&& file_of(y) == file_of(b)
            &&& y.title == b.title
            &&& y.author == Some(coalesce(b.author, ""@))
            &&& y.tags == Some(coalesce(b.tags, ""@))
            &&& y.status == Some(coalesce(b.status, "想读"@))
            &&& y.my_review == Some(coalesce(b.my_review, ""@))
            &&& y.finished_date == b.finished_date
            &&& y.description == Some(coalesce(b.description, ""@))
            &&& y.cover_path == rebased_opt(b.cover_path, covers)
            &&& y.series_name == b.series_name
            &&& y.series_order == b.series_order
            &&& y.clasp_ids == Some(coalesce(b.clasp_ids, "[]"@))
            &&& y.merged_from == Some(coalesce(b.merged_from, ""@))
            &&& y.douban_urls == Some(coalesce(b.douban_urls, "[]"@))
            &&& (exists|q: int|
                0 <= q < c.books.len() && (#[trigger] c.books[q]).library_id == Some(library)
                    && file_of(c.books[q]) == file_of(b)) ==> exists|q: int|
                0 <= q < c.books.len() && (#[trigger] c.books[q]).id == y.id
                    && c.books[q].library_id == Some(library) && file_of(c.books[q]) == file_of(b)
                    && c.books[q].file_path == y.file_path
            &&& !(exists|q: int|
                0 <= q < c.books.len() && (#[trigger] c.books[q]).library_id == Some(library)
                    && file_of(c.books[q]) == file_of(b)) ==> y.id > c.last_book && y.file_path
                == Some(coalesce(b.file_path, ""@))
        }),
        names_known_books(c) ==> has_belongings(
            replaced(c, r, library, files, covers),
            r,
            r.books[k].id,
            replaced(c, r, library, files, covers).books[i].id,
            covers,
        ),
{
    let rows = local_rows(c, library);
    let d = replaced_first(c, r, library, files, covers, r.books.len());
    let e = replaced(c, r, library, files, covers);
    let b = r.books[k];
    arrives_and_stays(c, r, library, files, covers, k, r.books.len());
    let i = choose|i: int|
        0 <= i < d.books.len() && came_over(#[trigger] d.books[i], r.books[k], library, covers)
            && arrival_id(c, library, file_of(r.books[k]), d.books[i].id) && origin_kept(
            c,
            library,
            r.books[k],
            d.books[i],
        ) && (names_known_books(c) ==> has_belongings(
            d,
            r,
            r.books[k].id,
            d.books[i].id,
            covers,
        ));
    let y = d.books[i];
    assert(d.books.contains(y));
    pruning_leaves_arrival(c, d, library, files, y, rows.len());
    let p = choose|p: int| 0 <= p < e.books.len() && e.books[p] == y;
    row_with_file_is_row(rows, file_of(b));
    match row_with_file(rows, file_of(b)) {
        Some(t) => {
            let q = choose|q: int|
                0 <= q < rows.len() && (#[trigger] rows[q]).id == y.id && file_of(rows[q])
                    == file_of(y) && rows[q].file_path == y.file_path;
            let m = local_row_is_book(c, library, q);
            assert(c.books[m].id == y.id);
        },
        None => {
            if exists|q: int|
                0 <= q < c.books.len() && (#[trigger] c.books[q]).library_id == Some(library)
                    && file_of(c.books[q]) == file_of(b) {
                let q = choose|q: int|
                    0 <= q < c.books.len() && (#[trigger] c.books[q]).library_id == Some(library)
                        && file_of(c.books[q]) == file_of(b);
                c.books.lemma_filter_contains(|b: BookView| b.library_id == Some(library), q);
                assert(rows.contains(c.books[q]));
                let m = choose|m: int| 0 <= m < rows.len() && rows[m] == c.books[q];
                assert(file_of(rows[m]) == file_of(b));
            }
        },
    }
    p
}

/// What a remote book brings with it: after the replacement the comments on the book that it
/// came to are the remote ones, one by one, the reader's own among them; and its sources are
/// the remote ones, in the order in which they are listed, with their covers found again.
pub proof fn remote_comments_and_sources_arrive(
    c: CatalogView,
    r: CatalogView,
    library: Seq<char>,
    files: Seq<Seq<char>>,
    covers: Seq<CoverFile>,
    k: int,
) -> (i: int)
    requires
        c.wf(),
        names_known_books(c),
        0 <= k < r.books.len(),
        in_scope(r.books[k], files),
        forall|j: int|
            k < j < r.books.len() ==> file_of(#[trigger] r.books[j]) != file_of(r.books[k]),
    ensures
        ({
            let e = replaced(c, r, library, files, covers);
            let y = e.books[i];
            let zs = e.comments.filter(|x: CommentView| x.book_id == y.id);
            let xs = r.comments.filter(|x: CommentView| x.book_id == r.books[k].id);
            let ws = e.sources.filter(|x: SourceView| x.book_id == y.id);
            let ys = sources_of(r.sources, r.books[k].id);
            &&& 0 <= i < e.books.len()
            &&& y.library_id == Some(library) && file_of(y) == file_of(r.books[k])
            &&& zs.len() == xs.len()
            &&& forall|m: int|
                0 <= m < xs.len() ==> {
                    &&& (#[trigger] zs[m]).rating == xs[m].rating
                    &&& zs[m].content == xs[m].content
                    &&& zs[m].usefulness == xs[m].usefulness
                    &&& zs[m].source == xs[m].source
                    &&& zs[m].is_mine == xs[m].is_mine
                    &&& zs[m].source_ref == xs[m].source_ref
                }
            &&& ws.len() == ys.len()
            &&& forall|m: int| 0 <= m < ys.len() ==> same_source(#[trigger] ws[m], ys[m], covers)
        }),
{
    remote_books_arrive(c, r, library, files, covers, k)
}

/// A cover is found again by the name of its file, whatever directory it was in: at the first
/// local file of that name.
pub proof fn covers_are_found_by_name(files: Seq<CoverFile>, name: Seq<char>, k: int)
    requires
        0 <= k <= files.len(),
        forall|i: int| 0 <= i < k ==> (#[trigger] files[i]).name@ != name,
    ensures
        k == files.len() ==> file_named(files, name) is None,
        (k < files.len() && files[k].name@ == name) ==> file_named(files, name) == Some(
            files[k].path@,
        ),
    decreases files.len(),
{
    if files.len() > 0 && k > 0 {
        let d = files.drop_first();
        assert(files[0].name@ != name);
        assert(forall|i: int| 0 <= i < d.len() ==> #[trigger] d[i] == files[i + 1]);
        assert(k < files.len() ==> d[k - 1] == files[k]);
        covers_are_found_by_name(d, name, k - 1);
    }
}

/// The name of a file is what stands behind the last slash of either form.
pub proof fn a_name_stands_behind_the_last_separator(dir: Seq<char>, name: Seq<char>)
    requires
        dir.len() == 0 || dir.last() == '/' || dir.last() == '\\',
        !name.contains('/') && !name.contains('\\'),
    ensures
        behind_separator(dir + name) == name,
    decreases name.len(),
{
    if name.len() == 0 {
        assert(dir + name =~= dir);
        assert(behind_separator(dir) =~= name);
    } else {
        let d = name.drop_last();
        assert(name.contains(name[name.len() - 1]));
        assert((dir + name).drop_last() =~= dir + d);
        assert((dir + name).last() == name.last());
        assert(!d.contains('/') && !d.contains('\\')) by {
            if d.contains('/') {
                let k = choose|k: int| 0 <= k < d.len() && d[k] == '/';
                assert(name[k] == '/');
            }
            if d.contains('\\') {
                let k = choose|k: int| 0 <= k < d.len() && d[k] == '\\';
                assert(name[k] == '\\');
            }
        }
        a_name_stands_behind_the_last_separator(dir, d);
        assert(d.push(name.last()) =~= name);
    }
}

} // verus!
