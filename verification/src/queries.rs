//! Questions to the catalogue.
use vstd::prelude::*;
use vstd::string::*;

use crate::db::{
    book_of, coalesce, holds, opt_view, or_text, own, BookRec, BookView, Catalog, CommentRec,
    CommentRow, CommentView, DbError,
};
use crate::seqs::{
    arrange, arranged_is_sorted, chosen_places, filter_none, filter_step, map_push, picked,
    sorted_by, take_all,
};
use crate::sorting::{key_views, KeyView, SortKey};
use crate::text::{
    ascii_lower, ascii_lower_all, chars_of, clone_opt, lower, lowercase, opt_str, same, strs,
    strs_push, to_ascii_lower, to_lower,
};

verus! {

// ---- LIKE ----

/// Whether `s` has the form `p`: `%` stands for any characters, `_` for one, and letters
/// are the same in both cases.
pub open spec fn like(p: Seq<char>, s: Seq<char>) -> bool
    decreases p.len(), s.len(),
{
    if p.len() == 0 {
        s.len() == 0
    } else if p[0] == '%' {
        like(p.drop_first(), s) || (s.len() > 0 && like(p, s.drop_first()))
    } else if p[0] == '_' {
        s.len() > 0 && like(p.drop_first(), s.drop_first())
    } else {
        s.len() > 0 && ascii_lower(p[0]) == ascii_lower(s[0]) && like(
            p.drop_first(),
            s.drop_first(),
        )
    }
}

/// Whether `p` matches `s`, found from their ends: for each rest of `p`, which rests of `s` it
/// matches.
fn is_like(p: &Vec<char>, s: &Vec<char>) -> (r: bool)
    ensures
        r == like(p@, s@),
{
    let n: usize = s.len();
    let mut row: Vec<bool> = Vec::new();
    let mut j: usize = 0;
    while j < n
        invariant
            j <= n == s@.len(),
            row@.len() == j,
            forall|k: int| 0 <= k < j ==> (#[trigger] row@[k]) == like(
                Seq::<char>::empty(),
                s@.skip(k),
            ),
        decreases n - j,
    {
        row.push(false);
        j += 1;
    }
    row.push(true);
    let mut i: usize = p.len();
    assert(p@.skip(i as int) =~= Seq::<char>::empty());
    while i > 0
        invariant
            i <= p@.len(),
            n == s@.len(),
            row@.len() == n + 1,
            forall|k: int| 0 <= k <= n ==> (#[trigger] row@[k]) == like(
                p@.skip(i as int),
                s@.skip(k),
            ),
        decreases i,
    {
        let c = p[i - 1];
        let ghost rest = p@.skip(i - 1);
        assert(rest[0] == c);
        assert(rest.drop_first() =~= p@.skip(i as int));
        let ghost below = row@;
        let mut next: bool = false;
        let mut k: usize = row.len();
        while k > 0
            invariant
                k <= n + 1,
                0 < i <= p@.len(),
                n == s@.len(),
                row@.len() == n + 1,
                below.len() == n + 1,
                rest == p@.skip(i - 1),
                rest[0] == c,
                rest.len() > 0,
                rest.drop_first() == p@.skip(i as int),
                forall|m: int| 0 <= m <= n ==> (#[trigger] below[m]) == like(
                    p@.skip(i as int),
                    s@.skip(m),
                ),
                forall|m: int| 0 <= m < k ==> (#[trigger] row@[m]) == below[m],
                forall|m: int| k <= m <= n ==> (#[trigger] row@[m]) == like(rest, s@.skip(m)),
                k <= n ==> next == below[k as int],
            decreases k,
        {
            let at: usize = k - 1;
            let here: bool = row[at];
            assert(here == below[at as int]);
            if at < n {
                assert(s@.skip(at as int)[0] == s@[at as int]);
                assert(s@.skip(at as int).drop_first() =~= s@.skip(at + 1));
                assert(below[at + 1] == like(p@.skip(i as int), s@.skip(at + 1)));
                assert(row@[at + 1] == like(rest, s@.skip(at + 1)));
            }
            let now: bool = if c == '%' {
                here || (at < n && row[at + 1])
            } else if c == '_' {
                at < n && next
            } else {
                at < n && lower(c) == lower(s[at]) && next
            };
            assert(now == like(rest, s@.skip(at as int)));
            row.set(at, now);
            next = here;
            k = at;
        }
        i -= 1;
    }
    assert(p@.skip(0) =~= p@);
    assert(s@.skip(0) =~= s@);
    row[0]
}

/// Whether `text`, in lower case, has `term` in it.
pub open spec fn mentions(text: Seq<char>, term: Seq<char>) -> bool {
    like("%"@ + term + "%"@, ascii_lower_all(text))
}

/// Whether `text`, in lower case, has `term` in it.
pub fn text_mentions(text: &str, term: &str) -> (r: bool)
    ensures
        r == mentions(text@, term@),
{
    let p = chars_of(&"%".to_owned().concat(term).concat("%"));
    let s = chars_of(&to_ascii_lower(text));
    is_like(&p, &s)
}

// ---- which books ----

/// Which books are meant.
pub enum BookFilter {
    /// All of them.
    All,
    /// Those that are not read yet.
    Unfinished,
    /// Those of a series.
    Series(String),
    /// Those that a search is for: by library, by a word in the title or the author, by
    /// status, by author and by tag.
    Search {
        library: Option<String>,
        keyword: Option<String>,
        status: Option<String>,
        author: Option<String>,
        tag: Option<String>,
    },
}

/// The status of a book; one without is to be read.
pub open spec fn status_of(b: BookView) -> Seq<char> {
    coalesce(b.status, "想读"@)
}

/// Whether `b` is not read yet.
pub open spec fn is_unfinished(b: BookView) -> bool {
    b.status is None || b.status == Some("想读"@) || b.status == Some("在读"@)
}

/// Whether a search is for `b`.
pub open spec fn search_hits(
    b: BookView,
    library: Option<Seq<char>>,
    keyword: Option<Seq<char>>,
    status: Option<Seq<char>>,
    author: Option<Seq<char>>,
    tag: Option<Seq<char>>,
) -> bool {
    &&& library is Some ==> b.library_id == library
    &&& keyword is Some ==> mentions(b.title, keyword->0) || mentions(
        coalesce(b.author, ""@),
        keyword->0,
    )
    &&& status is Some ==> status_of(b) == status->0
    &&& author is Some ==> mentions(coalesce(b.author, ""@), ascii_lower_all(author->0))
    &&& tag is Some ==> mentions(coalesce(b.tags, ""@), ascii_lower_all(tag->0))
}

impl BookFilter {
    /// Whether `b` is meant.
    pub open spec fn hits(self, b: BookView) -> bool {
        match self {
            BookFilter::All => true,
            BookFilter::Unfinished => is_unfinished(b),
            BookFilter::Series(s) => b.series_name == Some(s@),
            BookFilter::Search { library, keyword, status, author, tag } => search_hits(
                b,
                opt_str(library),
                opt_str(keyword),
                opt_str(status),
                opt_str(author),
                opt_str(tag),
            ),
        }
    }

    fn accepts(&self, b: &BookRec) -> (r: bool)
        ensures
            r == self.hits(b@),
    {
        match self {
            BookFilter::All => true,
            BookFilter::Unfinished => match &b.status {
                None => true,
                Some(s) => same(s, "想读") || same(s, "在读"),
            },
            BookFilter::Series(s) => holds(&b.series_name, s),
            BookFilter::Search { library, keyword, status, author, tag } => {
                let in_library = match library {
                    Some(l) => holds(&b.library_id, l),
                    None => true,
                };
                let named = match keyword {
                    Some(k) => text_mentions(&b.title, k) || text_mentions(
                        &or_text(&b.author, ""),
                        k,
                    ),
                    None => true,
                };
                let in_status = match status {
                    Some(s) => same(&or_text(&b.status, "想读"), s),
                    None => true,
                };
                let by_author = match author {
                    Some(a) => text_mentions(&or_text(&b.author, ""), &to_ascii_lower(a)),
                    None => true,
                };
                let tagged = match tag {
                    Some(t) => text_mentions(&or_text(&b.tags, ""), &to_ascii_lower(t)),
                    None => true,
                };
                in_library && named && in_status && by_author && tagged
            },
        }
    }
}

impl Catalog {
    /// Where the books stand that are meant, in the order of their identifiers.
    pub fn books_at(&self, f: &BookFilter) -> (r: Vec<usize>)
        ensures
            picked(self@.books, r@) == self@.books.filter(|b: BookView| f.hits(b)),
            r@.len() == self@.books.filter(|b: BookView| f.hits(b)).len(),
            forall|i: int| 0 <= i < r@.len() ==> (#[trigger] r@[i]) < self.books@.len(),
    {
        let ghost all = self@.books;
        let ghost hit = |b: BookView| f.hits(b);
        let mut sel: Vec<usize> = Vec::new();
        let mut i: usize = 0;
        proof {
            filter_none(all, hit);
            assert(picked(all, sel@) =~= all.take(0).filter(hit));
        }
        while i < self.books.len()
            invariant
                i <= self.books@.len(),
                all == self@.books,
                hit == |b: BookView| f.hits(b),
                picked(all, sel@) == all.take(i as int).filter(hit),
                forall|k: int| 0 <= k < sel@.len() ==> (#[trigger] sel@[k]) < self.books@.len(),
            decreases self.books@.len() - i,
        {
            proof {
                filter_step(all, i as int, hit);
                assert(all[i as int] == self.books@[i as int]@);
            }
            if f.accepts(&self.books[i]) {
                let ghost was = sel@;
                sel.push(i);
                assert(picked(all, sel@) =~= picked(all, was).push(all[i as int]));
            }
            i += 1;
        }
        proof {
            take_all(all);
            assert(picked(all, sel@).len() == sel@.len());
        }
        sel
    }
}

// ---- the rows that are shown ----

/// A book of a list.
pub struct LocalBook {
    pub id: i64,
    pub title: String,
    pub author: String,
    pub tags: String,
    pub status: String,
    pub series_name: String,
    pub series_order: Option<i64>,
    pub library_file: String,
}

/// Whether `r` shows the book `b`.
pub open spec fn local_book_is(r: LocalBook, b: BookView) -> bool {
    &&& r.id == b.id
    &&& r.title@ == b.title
    &&& r.author@ == coalesce(b.author, ""@)
    &&& r.tags@ == coalesce(b.tags, ""@)
    &&& r.status@ == coalesce(b.status, ""@)
    &&& r.series_name@ == coalesce(b.series_name, ""@)
    &&& r.series_order == b.series_order
    &&& r.library_file@ == coalesce(b.library_file, ""@)
}

/// A book to choose.
pub struct BookSummary {
    pub id: i64,
    pub title: String,
    pub author: String,
}

/// Whether `r` shows the book `b`.
pub open spec fn summary_is(r: BookSummary, b: BookView) -> bool {
    &&& r.id == b.id
    &&& r.title@ == b.title
    &&& r.author@ == coalesce(b.author, ""@)
}

/// A volume of a series.
#[derive(Debug)]
pub struct SeriesBook {
    pub id: i64,
    pub title: String,
    pub file_path: String,
    pub library_file: String,
    pub series_order: Option<i64>,
    pub description: Option<String>,
}

/// Whether `r` shows the book `b`.
pub open spec fn series_book_is(r: SeriesBook, b: BookView) -> bool {
    &&& r.id == b.id
    &&& r.title@ == b.title
    &&& r.file_path@ == coalesce(b.file_path, ""@)
    &&& r.library_file@ == coalesce(b.library_file, ""@)
    &&& r.series_order == b.series_order
    &&& opt_str(r.description) == b.description
}

/// A book on the shelf page.
pub struct ShelfRow {
    pub title: String,
    pub author: String,
    pub status: String,
    pub my_review: String,
    pub cover_path: Option<String>,
    /// A JSON array of entry ids.
    pub clasp_ids: String,
    pub series_name: String,
    pub series_order: Option<i64>,
}

/// Whether `r` shows the book `b`.
pub open spec fn shelf_row_is(r: ShelfRow, b: BookView) -> bool {
    &&& r.title@ == b.title
    &&& r.author@ == coalesce(b.author, ""@)
    &&& r.status@ == status_of(b)
    &&& r.my_review@ == coalesce(b.my_review, ""@)
    &&& opt_str(r.cover_path) == b.cover_path
    &&& r.clasp_ids@ == coalesce(b.clasp_ids, ""@)
    &&& r.series_name@ == coalesce(b.series_name, ""@)
    &&& r.series_order == b.series_order
}

/// A card of the book grid.
pub struct BookCardRow {
    pub id: i64,
    pub title: String,
    pub author: String,
    pub tags: String,
    pub status: String,
    pub cover_path: Option<String>,
    pub series_name: String,
    pub series_order: Option<i64>,
    pub clasp_ids: String,
}

/// Whether `r` shows the book `b`.
pub open spec fn card_is(r: BookCardRow, b: BookView) -> bool {
    &&& r.id == b.id
    &&& r.title@ == b.title
    &&& r.author@ == coalesce(b.author, ""@)
    &&& r.tags@ == coalesce(b.tags, ""@)
    &&& r.status@ == status_of(b)
    &&& opt_str(r.cover_path) == b.cover_path
    &&& r.series_name@ == coalesce(b.series_name, ""@)
    &&& r.series_order == b.series_order
    &&& r.clasp_ids@ == coalesce(b.clasp_ids, ""@)
}

/// All that is shown of one book.
pub struct BookDetailRow {
    pub id: i64,
    pub title: String,
    pub author: String,
    pub tags: String,
    pub status: String,
    pub description: Option<String>,
    pub cover_path: Option<String>,
    pub my_review: Option<String>,
    pub finished_date: Option<String>,
    pub series_name: Option<String>,
    pub series_order: Option<i64>,
    pub clasp_ids: Option<String>,
    pub merged_from: Option<String>,
    /// A JSON array of Douban addresses.
    pub douban_urls: Option<String>,
    /// The name of the file in the library.
    pub library_file: Option<String>,
    /// The file that the book was taken from.
    pub file_path: Option<String>,
    /// The library that the book is in.
    pub library_id: Option<String>,
}

/// Whether `r` shows the book `b`.
pub open spec fn detail_is(r: BookDetailRow, b: BookView) -> bool {
    &&& r.id == b.id
    &&& r.title@ == b.title
    &&& r.author@ == coalesce(b.author, ""@)
    &&& r.tags@ == coalesce(b.tags, ""@)
    &&& r.status@ == status_of(b)
    &&& opt_str(r.description) == b.description
    &&& opt_str(r.cover_path) == b.cover_path
    &&& opt_str(r.my_review) == b.my_review
    &&& opt_str(r.finished_date) == b.finished_date
    &&& opt_str(r.series_name) == b.series_name
    &&& r.series_order == b.series_order
    &&& opt_str(r.clasp_ids) == b.clasp_ids
    &&& opt_str(r.merged_from) == b.merged_from
    &&& opt_str(r.douban_urls) == b.douban_urls
    &&& opt_str(r.library_file) == b.library_file
    &&& opt_str(r.file_path) == b.file_path
    &&& opt_str(r.library_id) == b.library_id
}

/// A book as the reading assistant sees it.
pub struct ChatbotBookRow {
    pub id: i64,
    pub title: String,
    pub author: String,
    pub status: String,
    pub tags: String,
    pub description: Option<String>,
    pub my_review: Option<String>,
    pub finished_date: Option<String>,
}

/// Whether `r` shows the book `b`.
pub open spec fn chatbot_row_is(r: ChatbotBookRow, b: BookView) -> bool {
    &&& r.id == b.id
    &&& r.title@ == b.title
    &&& r.author@ == coalesce(b.author, ""@)
    &&& r.status@ == status_of(b)
    &&& r.tags@ == coalesce(b.tags, ""@)
    &&& opt_str(r.description) == b.description
    &&& opt_str(r.my_review) == b.my_review
    &&& opt_str(r.finished_date) == b.finished_date
}

/// Whether `r` shows the comment `c`.
pub open spec fn comment_is(r: CommentRow, c: CommentView) -> bool {
    (CommentRec { book_id: 0, row: r })@ == (CommentView { book_id: 0, ..c })
}

fn series_row(b: &BookRec) -> (r: SeriesBook)
    ensures
        series_book_is(r, b@),
{
    SeriesBook {
        id: b.id,
        title: b.title.clone(),
        file_path: or_text(&b.file_path, ""),
        library_file: or_text(&b.library_file, ""),
        series_order: b.series_order,
        description: clone_opt(&b.description),
    }
}

/// By what the volumes of a series are listed: those without a number last.
pub open spec fn volume_key(b: BookView) -> KeyView {
    match b.series_order {
        Some(n) => KeyView { text: Seq::empty(), a: 0, b: n as int },
        None => KeyView { text: Seq::empty(), a: 1, b: 0 },
    }
}

/// The books of a series, by volume; those without a number last.
pub open spec fn volumes_of(books: Seq<BookView>, series: Seq<char>) -> Seq<BookView> {
    sorted_by(
        books.filter(|b: BookView| b.series_name == Some(series)),
        |b: BookView| volume_key(b),
    )
}

/// The first `limit` elements; a negative limit is none.
pub open spec fn limited<A>(s: Seq<A>, limit: int) -> Seq<A> {
    if 0 <= limit < s.len() {
        s.take(limit)
    } else {
        s
    }
}

/// By what all comments of a book are listed: fetched ones first, the most useful first.
pub open spec fn comment_key(c: CommentView) -> KeyView {
    KeyView { text: Seq::empty(), a: c.is_mine as int, b: -(c.usefulness as int) }
}

/// The comments of a book: fetched ones first, the most useful first.
pub open spec fn comments_of(v: Seq<CommentView>, book: int) -> Seq<CommentView> {
    sorted_by(v.filter(|c: CommentView| c.book_id == book), |c: CommentView| comment_key(c))
}

/// The comments of a book that the reader did not write, the most useful first.
pub open spec fn fetched_comments_of(v: Seq<CommentView>, book: int) -> Seq<CommentView> {
    sorted_by(
        v.filter(|c: CommentView| c.book_id == book && c.is_mine == 0),
        |c: CommentView| comment_key(c),
    )
}

impl Catalog {
    /// All books.
    pub fn get_all_books(&self) -> (r: Vec<LocalBook>)
        ensures
            r@.len() == self@.books.len(),
            forall|i: int| 0 <= i < r@.len() ==> local_book_is(#[trigger] r@[i], self@.books[i]),
    {
        let mut out: Vec<LocalBook> = Vec::new();
        let mut i: usize = 0;
        while i < self.books.len()
            invariant
                i <= self.books@.len(),
                out@.len() == i,
                forall|k: int| 0 <= k < i ==> local_book_is(#[trigger] out@[k], self@.books[k]),
            decreases self.books@.len() - i,
        {
            let b = &self.books[i];
            assert(self@.books[i as int] == b@);
            out.push(
                LocalBook {
                    id: b.id,
                    title: b.title.clone(),
                    author: or_text(&b.author, ""),
                    tags: or_text(&b.tags, ""),
                    status: or_text(&b.status, ""),
                    series_name: or_text(&b.series_name, ""),
                    series_order: b.series_order,
                    library_file: or_text(&b.library_file, ""),
                },
            );
            i += 1;
        }
        out
    }

    /// The books that are not read yet.
    pub fn get_unfinished_books(&self) -> (r: Vec<BookSummary>)
        ensures
            r@.len() == self@.books.filter(|b: BookView| is_unfinished(b)).len(),
            forall|i: int|
                0 <= i < r@.len() ==> summary_is(
                    #[trigger] r@[i],
                    self@.books.filter(|b: BookView| is_unfinished(b))[i],
                ),
    {
        let ghost want = self@.books.filter(|b: BookView| is_unfinished(b));
        let idx = self.books_at(&BookFilter::Unfinished);
        proof {
            assert((|b: BookView| BookFilter::Unfinished.hits(b)) =~= (|b: BookView|
                is_unfinished(b)));
        }
        let mut out: Vec<BookSummary> = Vec::new();
        let mut i: usize = 0;
        while i < idx.len()
            invariant
                i <= idx@.len(),
                out@.len() == i,
                picked(self@.books, idx@) == want,
                forall|k: int| 0 <= k < idx@.len() ==> (#[trigger] idx@[k]) < self.books@.len(),
                forall|k: int| 0 <= k < i ==> summary_is(#[trigger] out@[k], want[k]),
            decreases idx@.len() - i,
        {
            let b = &self.books[idx[i]];
            assert(want[i as int] == b@);
            out.push(
                BookSummary { id: b.id, title: b.title.clone(), author: or_text(&b.author, "") },
            );
            i += 1;
        }
        out
    }

    /// The title, the author and the tags of a book.
    pub fn get_book_meta(&self, book_id: i64) -> (r: Result<(String, String, String), DbError>)
        requires
            self.wf(),
        ensures
            match r {
                Ok(m) => book_of(self@.books, book_id as int) matches Some(b) && m.0@ == b.title
                    && m.1@ == coalesce(b.author, ""@) && m.2@ == coalesce(b.tags, ""@),
                Err(e) => e == DbError::NotFound && book_of(self@.books, book_id as int) is None,
            },
    {
        match self.book_at(book_id) {
            Some(k) => {
                let b = &self.books[k];
                assert(self@.books[k as int] == b@);
                Ok((b.title.clone(), or_text(&b.author, ""), or_text(&b.tags, "")))
            },
            None => Err(DbError::NotFound),
        }
    }

    /// The volumes of a series, those without a number last.
    pub fn get_books_by_series(&self, series_name: &str) -> (r: Vec<SeriesBook>)
        ensures
            r@.len() == volumes_of(self@.books, series_name@).len(),
            forall|i: int|
                0 <= i < r@.len() ==> series_book_is(
                    #[trigger] r@[i],
                    volumes_of(self@.books, series_name@)[i],
                ),
    {
        let ghost all = self@.books;
        let ghost key = |b: BookView| volume_key(b);
        let f = BookFilter::Series(series_name.to_owned());
        let sel = self.books_at(&f);
        let ghost some = all.filter(|b: BookView| f.hits(b));
        proof {
            assert((|b: BookView| f.hits(b)) =~= (|b: BookView|
                b.series_name == Some(series_name@)));
        }
        let mut keys: Vec<SortKey> = Vec::new();
        let mut i: usize = 0;
        while i < sel.len()
            invariant
                i <= sel@.len(),
                all == self@.books,
                key == |b: BookView| volume_key(b),
                picked(all, sel@) == some,
                some.len() == sel@.len(),
                forall|k: int| 0 <= k < sel@.len() ==> (#[trigger] sel@[k]) < self.books@.len(),
                key_views(keys@) == some.take(i as int).map_values(key),
            decreases sel@.len() - i,
        {
            let b = &self.books[sel[i]];
            assert(some[i as int] == b@);
            let ghost was = keys@;
            let k = match b.series_order {
                Some(n) => SortKey { text: String::new(), a: 0, b: n as i128 },
                None => SortKey { text: String::new(), a: 1, b: 0 },
            };
            assert(k@ == volume_key(b@)) by {
                assert(k@.text =~= Seq::<char>::empty());
            }
            keys.push(k);
            i += 1;
            proof {
                assert(key_views(keys@) =~= key_views(was).push(k@));
                assert(key_views(keys@) =~= some.take(i as int).map_values(key));
            }
        }
        proof {
            take_all(some);
            assert(key_views(keys@).len() == keys@.len());
        }
        let order = arrange(&sel, &keys);
        proof {
            arranged_is_sorted(all, sel@, key_views(keys@), key, order@);
        }
        let ghost want = volumes_of(all, series_name@);
        assert(picked(all, order@) == want);
        assert(want.len() == order@.len());
        let mut out: Vec<SeriesBook> = Vec::new();
        let mut j: usize = 0;
        while j < order.len()
            invariant
                j <= order@.len(),
                out@.len() == j,
                all == self@.books,
                picked(all, order@) == want,
                forall|k: int| 0 <= k < sel@.len() ==> (#[trigger] sel@[k]) < self.books@.len(),
                forall|k: int| 0 <= k < order@.len() ==> sel@.contains(#[trigger] order@[k]),
                forall|k: int| 0 <= k < j ==> series_book_is(#[trigger] out@[k], want[k]),
            decreases order@.len() - j,
        {
            proof {
                assert(sel@.contains(order@[j as int]));
                let q = choose|q: int| 0 <= q < sel@.len() && sel@[q] == order@[j as int];
                assert(sel@[q] < self.books@.len());
            }
            let b = &self.books[order[j]];
            assert(want[j as int] == b@);
            out.push(series_row(b));
            j += 1;
        }
        out
    }

    /// One book as a volume.
    pub fn get_book_full(&self, book_id: i64) -> (r: Option<SeriesBook>)
        requires
            self.wf(),
        ensures
            match r {
                Some(s) => book_of(self@.books, book_id as int) matches Some(b) && series_book_is(
                    s,
                    b,
                ),
                None => book_of(self@.books, book_id as int) is None,
            },
    {
        match self.book_at(book_id) {
            Some(k) => {
                assert(self@.books[k as int] == self.books@[k as int]@);
                Some(series_row(&self.books[k]))
            },
            None => None,
        }
    }

    /// The books of the shelf page.
    pub fn get_shelf_books(&self) -> (r: Vec<ShelfRow>)
        ensures
            r@.len() == self@.books.len(),
            forall|i: int| 0 <= i < r@.len() ==> shelf_row_is(#[trigger] r@[i], self@.books[i]),
    {
        let mut out: Vec<ShelfRow> = Vec::new();
        let mut i: usize = 0;
        while i < self.books.len()
            invariant
                i <= self.books@.len(),
                out@.len() == i,
                forall|k: int| 0 <= k < i ==> shelf_row_is(#[trigger] out@[k], self@.books[k]),
            decreases self.books@.len() - i,
        {
            let b = &self.books[i];
            assert(self@.books[i as int] == b@);
            out.push(
                ShelfRow {
                    title: b.title.clone(),
                    author: or_text(&b.author, ""),
                    status: or_text(&b.status, "想读"),
                    my_review: or_text(&b.my_review, ""),
                    cover_path: clone_opt(&b.cover_path),
                    clasp_ids: or_text(&b.clasp_ids, ""),
                    series_name: or_text(&b.series_name, ""),
                    series_order: b.series_order,
                },
            );
            i += 1;
        }
        out
    }

    /// The cards of the books of the library in use that the reader looks for, whichever case
    /// the words are typed in.
    pub fn get_books(
        &self,
        status: Option<&str>,
        search: Option<&str>,
        library_id: Option<&str>,
    ) -> (r: Vec<BookCardRow>)
        ensures
            ({
                let words = match search {
                    Some(s) => Some(lowercase(s@)),
                    None => None,
                };
                let all = found(
                    self@.books,
                    opt_view(library_id),
                    words,
                    opt_view(status),
                    None,
                    None,
                );
                &&& r@.len() == all.len()
                &&& forall|i: int| 0 <= i < r@.len() ==> card_is(#[trigger] r@[i], all[i])
            }),
    {
        match search {
            Some(s) => {
                let words = to_lower(s);
                self.get_book_cards(status, Some(words.as_str()), library_id)
            },
            None => self.get_book_cards(status, None, library_id),
        }
    }

    /// The cards of the books that a search is for.
    pub fn get_book_cards(
        &self,
        status: Option<&str>,
        search: Option<&str>,
        library_id: Option<&str>,
    ) -> (r: Vec<BookCardRow>)
        ensures
            r@.len() == found(
                self@.books,
                opt_view(library_id),
                opt_view(search),
                opt_view(status),
                None,
                None,
            ).len(),
            forall|i: int|
                0 <= i < r@.len() ==> card_is(
                    #[trigger] r@[i],
                    found(
                        self@.books,
                        opt_view(library_id),
                        opt_view(search),
                        opt_view(status),
                        None,
                        None,
                    )[i],
                ),
    {
        let ghost want = found(
            self@.books,
            opt_view(library_id),
            opt_view(search),
            opt_view(status),
            None,
            None,
        );
        let idx = self.search_at(library_id, search, status, None, None);
        let mut out: Vec<BookCardRow> = Vec::new();
        let mut i: usize = 0;
        while i < idx.len()
            invariant
                i <= idx@.len(),
                out@.len() == i,
                picked(self@.books, idx@) == want,
                forall|k: int| 0 <= k < idx@.len() ==> (#[trigger] idx@[k]) < self.books@.len(),
                forall|k: int| 0 <= k < i ==> card_is(#[trigger] out@[k], want[k]),
            decreases idx@.len() - i,
        {
            let b = &self.books[idx[i]];
            assert(want[i as int] == b@);
            out.push(
                BookCardRow {
                    id: b.id,
                    title: b.title.clone(),
                    author: or_text(&b.author, ""),
                    tags: or_text(&b.tags, ""),
                    status: or_text(&b.status, "想读"),
                    cover_path: clone_opt(&b.cover_path),
                    series_name: or_text(&b.series_name, ""),
                    series_order: b.series_order,
                    clasp_ids: or_text(&b.clasp_ids, ""),
                },
            );
            i += 1;
        }
        out
    }

    fn search_at(
        &self,
        library: Option<&str>,
        keyword: Option<&str>,
        status: Option<&str>,
        author: Option<&str>,
        tag: Option<&str>,
    ) -> (r: Vec<usize>)
        ensures
            picked(self@.books, r@) == found(
                self@.books,
                opt_view(library),
                opt_view(keyword),
                opt_view(status),
                opt_view(author),
                opt_view(tag),
            ),
            r@.len() == picked(self@.books, r@).len(),
            forall|i: int| 0 <= i < r@.len() ==> (#[trigger] r@[i]) < self.books@.len(),
    {
        let f = BookFilter::Search {
            library: own(library),
            keyword: own(keyword),
            status: own(status),
            author: own(author),
            tag: own(tag),
        };
        proof {
            assert((|b: BookView| f.hits(b)) =~= (|b: BookView|
                search_hits(
                    b,
                    opt_view(library),
                    opt_view(keyword),
                    opt_view(status),
                    opt_view(author),
                    opt_view(tag),
                )));
        }
        self.books_at(&f)
    }

    /// All that is shown of one book.
    pub fn get_book_detail(&self, book_id: i64) -> (r: Option<BookDetailRow>)
        requires
            self.wf(),
        ensures
            match r {
                Some(d) => book_of(self@.books, book_id as int) matches Some(b) && detail_is(d, b),
                None => book_of(self@.books, book_id as int) is None,
            },
    {
        match self.book_at(book_id) {
            Some(k) => {
                let b = &self.books[k];
                assert(self@.books[k as int] == b@);
                Some(
                    BookDetailRow {
                        id: b.id,
                        title: b.title.clone(),
                        author: or_text(&b.author, ""),
                        tags: or_text(&b.tags, ""),
                        status: or_text(&b.status, "想读"),
                        description: clone_opt(&b.description),
                        cover_path: clone_opt(&b.cover_path),
                        my_review: clone_opt(&b.my_review),
                        finished_date: clone_opt(&b.finished_date),
                        series_name: clone_opt(&b.series_name),
                        series_order: b.series_order,
                        clasp_ids: clone_opt(&b.clasp_ids),
                        merged_from: clone_opt(&b.merged_from),
                        douban_urls: clone_opt(&b.douban_urls),
                        library_file: clone_opt(&b.library_file),
                        file_path: clone_opt(&b.file_path),
                        library_id: clone_opt(&b.library_id),
                    },
                )
            },
            None => None,
        }
    }

    /// The first `limit` books that the assistant looks for.
    pub fn search_chatbot_books(
        &self,
        library_id: Option<&str>,
        keyword: Option<&str>,
        status: Option<&str>,
        author: Option<&str>,
        tag: Option<&str>,
        limit: i64,
    ) -> (r: Vec<ChatbotBookRow>)
        ensures
            r@.len() == limited(
                found(
                    self@.books,
                    opt_view(library_id),
                    opt_view(keyword),
                    opt_view(status),
                    opt_view(author),
                    opt_view(tag),
                ),
                limit as int,
            ).len(),
            forall|i: int|
                0 <= i < r@.len() ==> chatbot_row_is(
                    #[trigger] r@[i],
                    limited(
                        found(
                            self@.books,
                            opt_view(library_id),
                            opt_view(keyword),
                            opt_view(status),
                            opt_view(author),
                            opt_view(tag),
                        ),
                        limit as int,
                    )[i],
                ),
    {
        let idx = self.search_at(library_id, keyword, status, author, tag);
        let ghost all = picked(self@.books, idx@);
        let ghost want = limited(all, limit as int);
        let n: usize = if 0 <= limit && (limit as u64) < (idx.len() as u64) {
            limit as usize
        } else {
            idx.len()
        };
        assert(want.len() == n);
        let mut out: Vec<ChatbotBookRow> = Vec::new();
        let mut i: usize = 0;
        while i < n
            invariant
                i <= n <= idx@.len(),
                out@.len() == i,
                all == picked(self@.books, idx@),
                want == limited(all, limit as int),
                want.len() == n,
                forall|k: int| 0 <= k < idx@.len() ==> (#[trigger] idx@[k]) < self.books@.len(),
                forall|k: int| 0 <= k < i ==> chatbot_row_is(#[trigger] out@[k], want[k]),
            decreases n - i,
        {
            let b = &self.books[idx[i]];
            assert(want[i as int] == b@);
            out.push(
                ChatbotBookRow {
                    id: b.id,
                    title: b.title.clone(),
                    author: or_text(&b.author, ""),
                    status: or_text(&b.status, "想读"),
                    tags: or_text(&b.tags, ""),
                    description: clone_opt(&b.description),
                    my_review: clone_opt(&b.my_review),
                    finished_date: clone_opt(&b.finished_date),
                },
            );
            i += 1;
        }
        out
    }

    /// Where the comments of a book stand, in the order in which they are listed; without
    /// those of the reader where `fetched` is set.
    fn comments_at(&self, book_id: i64, fetched: bool) -> (r: Vec<usize>)
        ensures
            !fetched ==> picked(self@.comments, r@) == comments_of(self@.comments, book_id as int),
            fetched ==> picked(self@.comments, r@) == fetched_comments_of(
                self@.comments,
                book_id as int,
            ),
            forall|i: int| 0 <= i < r@.len() ==> (#[trigger] r@[i]) < self.comments@.len(),
    {
        let ghost all = self@.comments;
        let ghost mine = |c: CommentView| c.book_id == book_id as int && (!fetched || c.is_mine == 0);
        let ghost key = |c: CommentView| comment_key(c);
        let mut sel: Vec<usize> = Vec::new();
        let mut keys: Vec<SortKey> = Vec::new();
        let mut i: usize = 0;
        proof {
            filter_none(all, mine);
            assert(picked(all, sel@) =~= all.take(0).filter(mine));
            assert(key_views(keys@) =~= picked(all, sel@).map_values(key));
        }
        while i < self.comments.len()
            invariant
                i <= self.comments@.len(),
                all == self@.comments,
                mine == |c: CommentView|
                    c.book_id == book_id as int && (!fetched || c.is_mine == 0),
                key == |c: CommentView| comment_key(c),
                picked(all, sel@) == all.take(i as int).filter(mine),
                key_views(keys@) == picked(all, sel@).map_values(key),
                forall|k: int| 0 <= k < sel@.len() ==> (#[trigger] sel@[k]) < self.comments@.len(),
            decreases self.comments@.len() - i,
        {
            let c = &self.comments[i];
            proof {
                filter_step(all, i as int, mine);
                assert(all[i as int] == c@);
            }
            if c.book_id == book_id && (!fetched || c.row.is_mine == 0) {
                let ghost was = sel@;
                let ghost kwas = keys@;
                let k = SortKey {
                    text: String::new(),
                    a: c.row.is_mine as i128,
                    b: -(c.row.usefulness as i128),
                };
                sel.push(i);
                keys.push(k);
                proof {
                    assert(picked(all, sel@) =~= picked(all, was).push(all[i as int]));
                    assert(key_views(keys@) =~= key_views(kwas).push(k@));
                    map_push(picked(all, was), all[i as int], key);
                    assert(k@.text =~= Seq::<char>::empty());
                    assert(k@ == comment_key(all[i as int]));
                }
            }
            i += 1;
        }
        proof {
            take_all(all);
            assert(picked(all, sel@).len() == sel@.len());
            assert(key_views(keys@).len() == keys@.len());
            assert(picked(all, sel@).map_values(key).len() == sel@.len());
        }
        let r = arrange(&sel, &keys);
        proof {
            arranged_is_sorted(all, sel@, key_views(keys@), key, r@);
            assert forall|k: int| 0 <= k < r@.len() implies (#[trigger] r@[k]) < self.comments@.len() by {
                assert(sel@.contains(r@[k]));
                let j = choose|j: int| 0 <= j < sel@.len() && sel@[j] == r@[k];
                assert(sel@[j] < self.comments@.len());
            }
            if fetched {
                assert(mine =~= (|c: CommentView| c.book_id == book_id as int && c.is_mine == 0));
            } else {
                assert(mine =~= (|c: CommentView| c.book_id == book_id as int));
            }
        }
        r
    }

    /// The texts of the `limit` most useful comments of a book that the reader did not
    /// write.
    pub fn get_top_comments(&self, book_id: i64, limit: usize) -> (r: Vec<String>)
        ensures
            strs(r@) == limited(
                fetched_comments_of(self@.comments, book_id as int),
                limit as int,
            ).map_values(|c: CommentView| c.content),
    {
        let idx = self.comments_at(book_id, true);
        let ghost all = fetched_comments_of(self@.comments, book_id as int);
        let ghost want = limited(all, limit as int);
        let ghost text = |c: CommentView| c.content;
        assert(picked(self@.comments, idx@).len() == idx@.len());
        let n: usize = if limit < idx.len() {
            limit
        } else {
            idx.len()
        };
        let mut out: Vec<String> = Vec::new();
        let mut i: usize = 0;
        assert(strs(out@) =~= want.take(0).map_values(text));
        while i < n
            invariant
                i <= n <= idx@.len(),
                n == want.len(),
                want == limited(all, limit as int),
                text == |c: CommentView| c.content,
                picked(self@.comments, idx@) == all,
                forall|k: int| 0 <= k < idx@.len() ==> (#[trigger] idx@[k]) < self.comments@.len(),
                strs(out@) == want.take(i as int).map_values(text),
            decreases n - i,
        {
            let c = &self.comments[idx[i]];
            assert(want[i as int] == c@);
            proof {
                strs_push(out@, c.row.content);
            }
            out.push(c.row.content.clone());
            i += 1;
            assert(strs(out@) =~= want.take(i as int).map_values(text));
        }
        proof {
            take_all(want);
        }
        out
    }

    /// The comments of a book: fetched ones first, the most useful first.
    pub fn get_comments_for_book(&self, book_id: i64) -> (r: Vec<CommentRow>)
        ensures
            r@.len() == comments_of(self@.comments, book_id as int).len(),
            forall|i: int|
                0 <= i < r@.len() ==> comment_is(
                    #[trigger] r@[i],
                    comments_of(self@.comments, book_id as int)[i],
                ),
    {
        let idx = self.comments_at(book_id, false);
        let ghost want = comments_of(self@.comments, book_id as int);
        assert(picked(self@.comments, idx@).len() == idx@.len());
        let mut out: Vec<CommentRow> = Vec::new();
        let mut i: usize = 0;
        while i < idx.len()
            invariant
                i <= idx@.len(),
                out@.len() == i,
                picked(self@.comments, idx@) == want,
                forall|k: int| 0 <= k < idx@.len() ==> (#[trigger] idx@[k]) < self.comments@.len(),
                forall|k: int| 0 <= k < i ==> comment_is(#[trigger] out@[k], want[k]),
            decreases idx@.len() - i,
        {
            let c = &self.comments[idx[i]];
            assert(want[i as int] == c@);
            out.push(copy_comment(&c.row));
            i += 1;
        }
        out
    }
}

/// A copy of a comment.
pub fn copy_comment(r: &CommentRow) -> (c: CommentRow)
    ensures
        c == *r,
{
    CommentRow {
        id: r.id,
        rating: r.rating,
        content: r.content.clone(),
        usefulness: r.usefulness,
        source: r.source.clone(),
        is_mine: r.is_mine,
        source_ref: clone_opt(&r.source_ref),
    }
}

/// The books that a search is for, in the order of their identifiers.
pub open spec fn found(
    books: Seq<BookView>,
    library: Option<Seq<char>>,
    keyword: Option<Seq<char>>,
    status: Option<Seq<char>>,
    author: Option<Seq<char>>,
    tag: Option<Seq<char>>,
) -> Seq<BookView> {
    books.filter(|b: BookView| search_hits(b, library, keyword, status, author, tag))
}

// ---- what is listed, and in which order ----

/// The comments of a book are listed all and once each: those that were fetched before the
/// reader's own, the more useful before the less useful, and those that are as useful in the
/// order in which they were recorded. `o` says where each stands in the catalogue.
pub proof fn comments_are_listed_by_use(v: Seq<CommentView>, book: int) -> (o: Seq<int>)
    ensures
        o.len() == comments_of(v, book).len(),
        o.no_duplicates(),
        forall|i: int|
            0 <= i < o.len() ==> 0 <= #[trigger] o[i] < v.len() && comments_of(v, book)[i]
                == v[o[i]] && v[o[i]].book_id == book,
        forall|p: int| 0 <= p < v.len() && (#[trigger] v[p]).book_id == book ==> o.contains(p),
        forall|i: int, j: int|
            0 <= i < j < o.len() ==> {
                let x = v[#[trigger] o[i]];
                let y = v[#[trigger] o[j]];
                ||| x.is_mine < y.is_mine
                ||| x.is_mine == y.is_mine && x.usefulness > y.usefulness
                ||| x.is_mine == y.is_mine && x.usefulness == y.usefulness && o[i] < o[j]
            },
{
    let f = |c: CommentView| c.book_id == book;
    let key = |c: CommentView| comment_key(c);
    let o = chosen_places(v, f, key);
    assert forall|p: int| 0 <= p < v.len() && (#[trigger] v[p]).book_id == book implies o.contains(
        p,
    ) by {
        assert(f(v[p]));
    }
    o
}

/// The comments of a book that were fetched are listed all and once each, the more useful
/// before the less useful, and none that the reader wrote.
pub proof fn fetched_comments_are_listed_by_use(v: Seq<CommentView>, book: int) -> (o: Seq<int>)
    ensures
        o.len() == fetched_comments_of(v, book).len(),
        o.no_duplicates(),
        forall|i: int|
            0 <= i < o.len() ==> 0 <= #[trigger] o[i] < v.len() && fetched_comments_of(v, book)[i]
                == v[o[i]] && v[o[i]].book_id == book && v[o[i]].is_mine == 0,
        forall|p: int|
            0 <= p < v.len() && (#[trigger] v[p]).book_id == book && v[p].is_mine == 0
                ==> o.contains(p),
        forall|i: int, j: int|
            0 <= i < j < o.len() ==> {
                let x = v[#[trigger] o[i]];
                let y = v[#[trigger] o[j]];
                x.usefulness > y.usefulness || x.usefulness == y.usefulness && o[i] < o[j]
            },
{
    let f = |c: CommentView| c.book_id == book && c.is_mine == 0;
    let key = |c: CommentView| comment_key(c);
    let o = chosen_places(v, f, key);
    assert forall|p: int|
        0 <= p < v.len() && (#[trigger] v[p]).book_id == book && v[p].is_mine == 0 implies o.contains(
        p,
    ) by {
        assert(f(v[p]));
    }
    o
}

/// The volumes of a series are listed all and once each, by their numbers; those without a
/// number come last, and what has one number stands in the order of the catalogue.
pub proof fn volumes_are_listed_by_number(books: Seq<BookView>, series: Seq<char>) -> (o: Seq<int>)
    ensures
        o.len() == volumes_of(books, series).len(),
        o.no_duplicates(),
        forall|i: int|
            0 <= i < o.len() ==> 0 <= #[trigger] o[i] < books.len() && volumes_of(books, series)[i]
                == books[o[i]] && books[o[i]].series_name == Some(series),
        forall|p: int|
            0 <= p < books.len() && (#[trigger] books[p]).series_name == Some(series)
                ==> o.contains(p),
        forall|i: int, j: int|
            0 <= i < j < o.len() ==> match (
                books[#[trigger] o[i]].series_order,
                books[#[trigger] o[j]].series_order,
            ) {
                (Some(m), Some(n)) => m < n || m == n && o[i] < o[j],
                (Some(m), None) => true,
                (None, Some(n)) => false,
                (None, None) => o[i] < o[j],
            },
{
    let f = |b: BookView| b.series_name == Some(series);
    let key = |b: BookView| volume_key(b);
    let o = chosen_places(books, f, key);
    assert forall|p: int|
        0 <= p < books.len() && (#[trigger] books[p]).series_name == Some(series) implies o.contains(
        p,
    ) by {
        assert(f(books[p]));
    }
    o
}

// ---- what is searched for ----

proof fn any_form(s: Seq<char>)
    ensures
        like(seq!['%'], s),
    decreases s.len(),
{
    let p = seq!['%'];
    if s.len() == 0 {
        assert(p.drop_first() =~= Seq::<char>::empty());
        assert(like(p.drop_first(), s));
    } else {
        any_form(s.drop_first());
    }
}

proof fn form_begins(t: Seq<char>, s: Seq<char>)
    requires
        forall|i: int| 0 <= i < t.len() ==> #[trigger] t[i] != '%' && t[i] != '_',
    ensures
        like(t + seq!['%'], s) <==> t.len() <= s.len() && forall|i: int|
            0 <= i < t.len() ==> ascii_lower(#[trigger] t[i]) == ascii_lower(s[i]),
    decreases t.len(),
{
    let p = t + seq!['%'];
    if t.len() == 0 {
        assert(p =~= seq!['%']);
        any_form(s);
    } else {
        let rest = t.drop_first();
        assert(p[0] == t[0]);
        assert(p.drop_first() =~= rest + seq!['%']);
        if s.len() > 0 {
            let less = s.drop_first();
            assert forall|i: int| 0 <= i < rest.len() implies #[trigger] rest[i] != '%' && rest[i]
                != '_' by {
                assert(rest[i] == t[i + 1]);
            }
            form_begins(rest, less);
            if t.len() <= s.len() && (forall|i: int|
                0 <= i < t.len() ==> ascii_lower(#[trigger] t[i]) == ascii_lower(s[i])) {
                assert forall|i: int| 0 <= i < rest.len() implies ascii_lower(#[trigger] rest[i])
                    == ascii_lower(less[i]) by {
                    assert(rest[i] == t[i + 1] && less[i] == s[i + 1]);
                }
            }
            if like(p, s) {
                assert forall|i: int| 0 <= i < t.len() implies ascii_lower(#[trigger] t[i])
                    == ascii_lower(s[i]) by {
                    if i > 0 {
                        assert(rest[i - 1] == t[i] && less[i - 1] == s[i]);
                    }
                }
            }
        }
    }
}

/// Whether `t` stands in `s` at `k`, be the letters small or capital.
pub open spec fn stands_in(s: Seq<char>, t: Seq<char>, k: int) -> bool {
    &&& 0 <= k && k + t.len() <= s.len()
    &&& forall|i: int| 0 <= i < t.len() ==> ascii_lower(#[trigger] t[i]) == ascii_lower(s[k + i])
}

proof fn form_is_found(t: Seq<char>, s: Seq<char>)
    requires
        forall|i: int| 0 <= i < t.len() ==> #[trigger] t[i] != '%' && t[i] != '_',
    ensures
        like(seq!['%'] + t + seq!['%'], s) <==> exists|k: int| stands_in(s, t, k),
    decreases s.len(),
{
    let p = seq!['%'] + t + seq!['%'];
    assert(p[0] == '%');
    assert(p.drop_first() =~= t + seq!['%']);
    form_begins(t, s);
    if like(t + seq!['%'], s) {
        assert forall|i: int| 0 <= i < t.len() implies ascii_lower(#[trigger] t[i]) == ascii_lower(
            s[0 + i],
        ) by {}
        assert(stands_in(s, t, 0));
    }
    if s.len() > 0 {
        let less = s.drop_first();
        form_is_found(t, less);
        if exists|k: int| stands_in(less, t, k) {
            let k = choose|k: int| stands_in(less, t, k);
            assert forall|i: int| 0 <= i < t.len() implies ascii_lower(#[trigger] t[i])
                == ascii_lower(s[k + 1 + i]) by {
                assert(less[k + i] == s[k + 1 + i]);
            }
            assert(stands_in(s, t, k + 1));
        }
        if exists|k: int| stands_in(s, t, k) {
            let k = choose|k: int| stands_in(s, t, k);
            if k == 0 {
                assert forall|i: int| 0 <= i < t.len() implies ascii_lower(#[trigger] t[i])
                    == ascii_lower(s[i]) by {
                    assert(ascii_lower(t[i]) == ascii_lower(s[k + i]));
                }
            } else {
                assert forall|i: int| 0 <= i < t.len() implies ascii_lower(#[trigger] t[i])
                    == ascii_lower(less[k - 1 + i]) by {
                    assert(less[k - 1 + i] == s[k + i]);
                }
                assert(stands_in(less, t, k - 1));
            }
        }
    } else if exists|k: int| stands_in(s, t, k) {
        let k = choose|k: int| stands_in(s, t, k);
        assert(k == 0 && t.len() == 0);
    }
}

/// A text mentions a term without wildcards where the term stands somewhere in it, be the
/// letters small or capital.
pub proof fn mentioned_is_found_in_the_text(text: Seq<char>, term: Seq<char>)
    requires
        forall|i: int| 0 <= i < term.len() ==> #[trigger] term[i] != '%' && term[i] != '_',
    ensures
        mentions(text, term) <==> exists|k: int| stands_in(text, term, k),
{
    reveal_strlit("%");
    let low = ascii_lower_all(text);
    assert("%"@ =~= seq!['%']);
    assert("%"@ + term + "%"@ =~= seq!['%'] + term + seq!['%']);
    form_is_found(term, low);
    assert forall|k: int| #[trigger] stands_in(text, term, k) == stands_in(low, term, k) by {
        if 0 <= k && k + term.len() <= text.len() {
            assert forall|i: int| 0 <= i < term.len() implies ascii_lower(low[k + i])
                == ascii_lower(#[trigger] text[k + i]) by {}
            if stands_in(text, term, k) {
                assert forall|i: int| 0 <= i < term.len() implies ascii_lower(#[trigger] term[i])
                    == ascii_lower(low[k + i]) by {
                    assert(ascii_lower(low[k + i]) == ascii_lower(text[k + i]));
                }
            }
            if stands_in(low, term, k) {
                assert forall|i: int| 0 <= i < term.len() implies ascii_lower(#[trigger] term[i])
                    == ascii_lower(text[k + i]) by {
                    assert(ascii_lower(low[k + i]) == ascii_lower(text[k + i]));
                }
            }
        }
    }
    if exists|k: int| stands_in(low, term, k) {
        let k = choose|k: int| stands_in(low, term, k);
        assert(stands_in(text, term, k));
    }
    if exists|k: int| stands_in(text, term, k) {
        let k = choose|k: int| stands_in(text, term, k);
        assert(stands_in(low, term, k));
    }
}

/// A search finds a book where the book meets each condition that is set: its library, its
/// title or its author with the keyword in it, its state, its author, its tags. A condition
/// that is not set excludes nothing.
pub proof fn a_search_asks_for_all_conditions(
    books: Seq<BookView>,
    library: Option<Seq<char>>,
    keyword: Option<Seq<char>>,
    status: Option<Seq<char>>,
    author: Option<Seq<char>>,
    tag: Option<Seq<char>>,
    b: BookView,
)
    requires
        books.contains(b),
    ensures
        found(books, library, keyword, status, author, tag).contains(b) <==> {
            let by = match b.author {
                Some(a) => a,
                None => Seq::empty(),
            };
            let tags = match b.tags {
                Some(t) => t,
                None => Seq::empty(),
            };
            &&& library matches Some(l) ==> b.library_id == Some(l)
            &&& keyword matches Some(k) ==> mentions(b.title, k) || mentions(by, k)
            &&& status matches Some(s) ==> match b.status {
                Some(t) => t == s,
                None => s == "想读"@,
            }
            &&& author matches Some(a) ==> mentions(by, ascii_lower_all(a))
            &&& tag matches Some(t) ==> mentions(tags, ascii_lower_all(t))
        },
{
    reveal_strlit("");
    assert(""@ =~= Seq::<char>::empty());
    let f = |b: BookView| search_hits(b, library, keyword, status, author, tag);
    let i = choose|i: int| 0 <= i < books.len() && books[i] == b;
    let all = found(books, library, keyword, status, author, tag);
    if f(b) {
        books.lemma_filter_contains(f, i);
    }
    if all.contains(b) {
        let k = choose|k: int| 0 <= k < all.len() && all[k] == b;
        books.lemma_filter_pred(f, k);
    }
}

/// What a row that is shown says of its book: what the book has, and nothing where it has
/// nothing; a book without a status is to be read, but in the plain list its status is left
/// empty.
pub proof fn rows_show_their_books(
    b: BookView,
    l: LocalBook,
    r: BookSummary,
    v: SeriesBook,
    s: ShelfRow,
    c: BookCardRow,
)
    requires
        local_book_is(l, b),
        summary_is(r, b),
        series_book_is(v, b),
        shelf_row_is(s, b),
        card_is(c, b),
    ensures
        l.id == b.id && r.id == b.id && v.id == b.id && c.id == b.id,
        l.title@ == b.title && r.title@ == b.title && v.title@ == b.title && s.title@ == b.title
            && c.title@ == b.title,
        b.author matches Some(a) ==> l.author@ == a && r.author@ == a && s.author@ == a && c.author@
            == a,
        b.tags matches Some(t) ==> l.tags@ == t && c.tags@ == t,
        b.status matches Some(t) ==> l.status@ == t && s.status@ == t && c.status@ == t,
        b.status is None ==> l.status@ == ""@ && s.status@ == "想读"@ && c.status@ == "想读"@,
        b.series_name matches Some(n) ==> l.series_name@ == n && s.series_name@ == n
            && c.series_name@ == n,
        b.series_name is None ==> l.series_name@ == ""@ && s.series_name@ == ""@ && c.series_name@
            == ""@,
        l.series_order == b.series_order && v.series_order == b.series_order && s.series_order
            == b.series_order && c.series_order == b.series_order,
        b.library_file matches Some(f) ==> l.library_file@ == f && v.library_file@ == f,
        b.file_path matches Some(f) ==> v.file_path@ == f,
        opt_str(v.description) == b.description,
        b.my_review matches Some(t) ==> s.my_review@ == t,
        b.my_review is None ==> s.my_review@ == ""@,
        opt_str(s.cover_path) == b.cover_path && opt_str(c.cover_path) == b.cover_path,
        b.clasp_ids matches Some(j) ==> s.clasp_ids@ == j && c.clasp_ids@ == j,
{
}

/// What the page of a book and the assistant are told of it: all that the book has.
pub proof fn pages_show_their_books(b: BookView, d: BookDetailRow, a: ChatbotBookRow)
    requires
        detail_is(d, b),
        chatbot_row_is(a, b),
    ensures
        d.id == b.id && a.id == b.id,
        d.title@ == b.title && a.title@ == b.title,
        b.author matches Some(t) ==> d.author@ == t && a.author@ == t,
        b.tags matches Some(t) ==> d.tags@ == t && a.tags@ == t,
        b.status matches Some(t) ==> d.status@ == t && a.status@ == t,
        b.status is None ==> d.status@ == "想读"@ && a.status@ == "想读"@,
        opt_str(d.description) == b.description && opt_str(a.description) == b.description,
        opt_str(d.my_review) == b.my_review && opt_str(a.my_review) == b.my_review,
        opt_str(d.finished_date) == b.finished_date && opt_str(a.finished_date) == b.finished_date,
        opt_str(d.cover_path) == b.cover_path,
        opt_str(d.series_name) == b.series_name && d.series_order == b.series_order,
        opt_str(d.clasp_ids) == b.clasp_ids && opt_str(d.douban_urls) == b.douban_urls,
        opt_str(d.merged_from) == b.merged_from,
        opt_str(d.library_file) == b.library_file && opt_str(d.file_path) == b.file_path,
        opt_str(d.library_id) == b.library_id,
{
}

/// A book is still to be finished where it is to be read, is being read, or has no status.
pub proof fn which_books_are_unfinished(b: BookView)
    ensures
        b.status is None ==> is_unfinished(b),
        b.status matches Some(s) ==> (is_unfinished(b) <==> s == "想读"@ || s == "在读"@),
{
}

/// A limit keeps the first rows, as many as it says; a negative one keeps all.
pub proof fn a_limit_keeps_the_first<A>(s: Seq<A>, limit: int)
    ensures
        limit < 0 ==> limited(s, limit) == s,
        limit >= 0 ==> limited(s, limit).is_prefix_of(s) && limited(s, limit).len() == (if limit
            < s.len() {
            limit
        } else {
            s.len() as int
        }),
{
}

} // verus!
