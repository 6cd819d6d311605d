//! The catalogue: books, their comments and sources, the reference counts of cover files
//! and the token usage of language models.
use vstd::prelude::*;
use vstd::string::*;

use crate::seqs::{filter_none, filter_step, take_all};
use crate::text::{opt_str, same};

verus! {

/// Why a change of the catalogue failed.
#[derive(Debug, PartialEq, Eq, Structural)]
pub enum DbError {
    /// No identifier is left.
    Full,
    /// There is no such row.
    NotFound,
    /// A sum is too large.
    Overflow,
}

/// A book of the catalogue.
pub struct BookRec {
    pub id: i64,
    pub title: String,
    pub author: Option<String>,
    pub tags: Option<String>,
    pub file_path: Option<String>,
    pub status: Option<String>,
    pub my_review: Option<String>,
    pub finished_date: Option<String>,
    pub description: Option<String>,
    pub cover_path: Option<String>,
    pub series_name: Option<String>,
    pub series_order: Option<i64>,
    pub library_file: Option<String>,
    pub clasp_ids: Option<String>,
    pub merged_from: Option<String>,
    pub douban_urls: Option<String>,
    pub library_id: Option<String>,
}

/// A book of the catalogue.
pub struct BookView {
    pub id: int,
    pub title: Seq<char>,
    pub author: Option<Seq<char>>,
    pub tags: Option<Seq<char>>,
    pub file_path: Option<Seq<char>>,
    pub status: Option<Seq<char>>,
    pub my_review: Option<Seq<char>>,
    pub finished_date: Option<Seq<char>>,
    pub description: Option<Seq<char>>,
    pub cover_path: Option<Seq<char>>,
    pub series_name: Option<Seq<char>>,
    pub series_order: Option<i64>,
    pub library_file: Option<Seq<char>>,
    pub clasp_ids: Option<Seq<char>>,
    pub merged_from: Option<Seq<char>>,
    pub douban_urls: Option<Seq<char>>,
    pub library_id: Option<Seq<char>>,
}

impl View for BookRec {
    type V = BookView;

    open spec fn view(&self) -> BookView {
        BookView {
            id: self.id as int,
            title: self.title@,
            author: opt_str(self.author),
            tags: opt_str(self.tags),
            file_path: opt_str(self.file_path),
            status: opt_str(self.status),
            my_review: opt_str(self.my_review),
            finished_date: opt_str(self.finished_date),
            description: opt_str(self.description),
            cover_path: opt_str(self.cover_path),
            series_name: opt_str(self.series_name),
            series_order: self.series_order,
            library_file: opt_str(self.library_file),
            clasp_ids: opt_str(self.clasp_ids),
            merged_from: opt_str(self.merged_from),
            douban_urls: opt_str(self.douban_urls),
            library_id: opt_str(self.library_id),
        }
    }
}

/// A comment as it is shown.
pub struct CommentRow {
    pub id: i64,
    pub rating: Option<i32>,
    pub content: String,
    pub usefulness: i32,
    pub source: String,
    /// 1 where the reader wrote it, 0 where it was fetched.
    pub is_mine: i64,
    /// The source that it was fetched from.
    pub source_ref: Option<String>,
}

/// A comment of a book.
pub struct CommentRec {
    pub book_id: i64,
    pub row: CommentRow,
}

/// A comment of a book.
pub struct CommentView {
    pub book_id: int,
    pub id: int,
    pub rating: Option<i32>,
    pub content: Seq<char>,
    pub usefulness: i32,
    pub source: Seq<char>,
    pub is_mine: i64,
    pub source_ref: Option<Seq<char>>,
}

impl View for CommentRec {
    type V = CommentView;

    open spec fn view(&self) -> CommentView {
        CommentView {
            book_id: self.book_id as int,
            id: self.row.id as int,
            rating: self.row.rating,
            content: self.row.content@,
            usefulness: self.row.usefulness,
            source: self.row.source@,
            is_mine: self.row.is_mine,
            source_ref: opt_str(self.row.source_ref),
        }
    }
}

/// A source of a book as it is shown.
#[derive(Debug)]
pub struct SourceRow {
    /// `clasp` or `douban`.
    pub kind: String,
    /// The entry's id, or the page's address.
    pub ref_key: String,
    pub position: i64,
    pub title: Option<String>,
    pub author: Option<String>,
    pub cover_url: Option<String>,
    pub cover_path: Option<String>,
    pub summary: Option<String>,
    /// A JSON array of tags.
    pub tags: Option<String>,
    pub series_name: Option<String>,
    pub series_order: Option<i64>,
    /// A JSON array of edition covers.
    pub editions: Option<String>,
}

/// A source of a book.
pub struct SourceRec {
    pub id: i64,
    pub book_id: i64,
    pub row: SourceRow,
}

/// A source of a book.
pub struct SourceView {
    pub id: int,
    pub book_id: int,
    pub kind: Seq<char>,
    pub ref_key: Seq<char>,
    pub position: int,
    pub title: Option<Seq<char>>,
    pub author: Option<Seq<char>>,
    pub cover_url: Option<Seq<char>>,
    pub cover_path: Option<Seq<char>>,
    pub summary: Option<Seq<char>>,
    pub tags: Option<Seq<char>>,
    pub series_name: Option<Seq<char>>,
    pub series_order: Option<i64>,
    pub editions: Option<Seq<char>>,
}

impl View for SourceRec {
    type V = SourceView;

    open spec fn view(&self) -> SourceView {
        SourceView {
            id: self.id as int,
            book_id: self.book_id as int,
            kind: self.row.kind@,
            ref_key: self.row.ref_key@,
            position: self.row.position as int,
            title: opt_str(self.row.title),
            author: opt_str(self.row.author),
            cover_url: opt_str(self.row.cover_url),
            cover_path: opt_str(self.row.cover_path),
            summary: opt_str(self.row.summary),
            tags: opt_str(self.row.tags),
            series_name: opt_str(self.row.series_name),
            series_order: self.row.series_order,
            editions: opt_str(self.row.editions),
        }
    }
}

/// How often a cover file is referred to.
pub struct CoverRef {
    pub path: String,
    pub refs: i64,
}

/// The token usage of one model.
#[derive(Debug)]
pub struct LlmUsageRow {
    pub model: String,
    pub calls: i64,
    pub prompt_tokens: i64,
    pub completion_tokens: i64,
    pub total_tokens: i64,
    pub last_used: Option<String>,
}

/// The token usage of one model.
pub struct UsageView {
    pub model: Seq<char>,
    pub calls: int,
    pub prompt_tokens: int,
    pub completion_tokens: int,
    pub total_tokens: int,
    pub last_used: Option<Seq<char>>,
}

impl View for LlmUsageRow {
    type V = UsageView;

    open spec fn view(&self) -> UsageView {
        UsageView {
            model: self.model@,
            calls: self.calls as int,
            prompt_tokens: self.prompt_tokens as int,
            completion_tokens: self.completion_tokens as int,
            total_tokens: self.total_tokens as int,
            last_used: opt_str(self.last_used),
        }
    }
}

/// The catalogue. Rows stand in the order of their identifiers.
pub struct Catalog {
    pub books: Vec<BookRec>,
    pub comments: Vec<CommentRec>,
    pub sources: Vec<SourceRec>,
    pub covers: Vec<CoverRef>,
    pub usage: Vec<LlmUsageRow>,
    /// The last identifier that was given to a book.
    pub last_book: i64,
    /// The last identifier that was given to a comment.
    pub last_comment: i64,
    /// The last identifier that was given to a source.
    pub last_source: i64,
}

/// The catalogue.
pub struct CatalogView {
    pub books: Seq<BookView>,
    pub comments: Seq<CommentView>,
    pub sources: Seq<SourceView>,
    /// The reference count of each registered cover file.
    pub covers: Map<Seq<char>, int>,
    pub usage: Seq<UsageView>,
    pub last_book: int,
    pub last_comment: int,
    pub last_source: int,
}

/// The views of a list of books.
pub open spec fn book_views(v: Seq<BookRec>) -> Seq<BookView> {
    v.map_values(|b: BookRec| b@)
}

/// The views of a list of comments.
pub open spec fn comment_views(v: Seq<CommentRec>) -> Seq<CommentView> {
    v.map_values(|c: CommentRec| c@)
}

/// The views of a list of sources.
pub open spec fn source_views(v: Seq<SourceRec>) -> Seq<SourceView> {
    v.map_values(|s: SourceRec| s@)
}

/// The views of the usage rows.
pub open spec fn usage_views(v: Seq<LlmUsageRow>) -> Seq<UsageView> {
    v.map_values(|u: LlmUsageRow| u@)
}

/// The counts of a list of references.
pub open spec fn cover_map(v: Seq<CoverRef>) -> Map<Seq<char>, int>
    decreases v.len(),
{
    if v.len() == 0 {
        Map::empty()
    } else {
        cover_map(v.drop_last()).insert(v.last().path@, v.last().refs as int)
    }
}

/// Whether no path is registered twice.
pub open spec fn paths_differ(v: Seq<CoverRef>) -> bool {
    forall|i: int, j: int|
        0 <= i < j < v.len() ==> (#[trigger] v[i]).path@ != (#[trigger] v[j]).path@
}

impl View for Catalog {
    type V = CatalogView;

    open spec fn view(&self) -> CatalogView {
        CatalogView {
            books: book_views(self.books@),
            comments: comment_views(self.comments@),
            sources: source_views(self.sources@),
            covers: cover_map(self.covers@),
            usage: usage_views(self.usage@),
            last_book: self.last_book as int,
            last_comment: self.last_comment as int,
            last_source: self.last_source as int,
        }
    }
}

/// Whether the books stand in the order of their identifiers, none above `last`.
pub open spec fn books_rise(v: Seq<BookView>, last: int) -> bool {
    &&& forall|i: int, j: int| 0 <= i < j < v.len() ==> (#[trigger] v[i]).id < (#[trigger] v[j]).id
    &&& forall|i: int| 0 <= i < v.len() ==> (#[trigger] v[i]).id <= last
}

/// Whether the comments stand in the order of their identifiers, none above `last`.
pub open spec fn comments_rise(v: Seq<CommentView>, last: int) -> bool {
    &&& forall|i: int, j: int| 0 <= i < j < v.len() ==> (#[trigger] v[i]).id < (#[trigger] v[j]).id
    &&& forall|i: int| 0 <= i < v.len() ==> (#[trigger] v[i]).id <= last
}

/// Whether the sources stand in the order of their identifiers, none above `last`.
pub open spec fn sources_rise(v: Seq<SourceView>, last: int) -> bool {
    &&& forall|i: int, j: int| 0 <= i < j < v.len() ==> (#[trigger] v[i]).id < (#[trigger] v[j]).id
    &&& forall|i: int| 0 <= i < v.len() ==> (#[trigger] v[i]).id <= last
}

/// Whether no model has two usage rows.
pub open spec fn models_differ(v: Seq<UsageView>) -> bool {
    forall|i: int, j: int|
        0 <= i < j < v.len() ==> (#[trigger] v[i]).model != (#[trigger] v[j]).model
}

impl CatalogView {
    /// Whether the rows are in order and no key stands twice.
    pub open spec fn wf(self) -> bool {
        &&& books_rise(self.books, self.last_book)
        &&& comments_rise(self.comments, self.last_comment)
        &&& sources_rise(self.sources, self.last_source)
        &&& models_differ(self.usage)
    }
}

impl Catalog {
    /// Whether the rows are in order and no key stands twice.
    pub open spec fn wf(&self) -> bool {
        self@.wf() && paths_differ(self.covers@)
    }

    /// The empty catalogue.
    pub fn new() -> (r: Catalog)
        ensures
            r.wf(),
            r@ == (CatalogView {
                books: Seq::empty(),
                comments: Seq::empty(),
                sources: Seq::empty(),
                covers: Map::empty(),
                usage: Seq::empty(),
                last_book: 0,
                last_comment: 0,
                last_source: 0,
            }),
    {
        let r = Catalog {
            books: Vec::new(),
            comments: Vec::new(),
            sources: Vec::new(),
            covers: Vec::new(),
            usage: Vec::new(),
            last_book: 0,
            last_comment: 0,
            last_source: 0,
        };
        assert(r@.books =~= Seq::<BookView>::empty());
        assert(r@.comments =~= Seq::<CommentView>::empty());
        assert(r@.sources =~= Seq::<SourceView>::empty());
        assert(r@.usage =~= Seq::<UsageView>::empty());
        r
    }
}

impl Catalog {
    fn books_are_sound(&self) -> (r: bool)
        ensures
            r == books_rise(self@.books, self.last_book as int),
    {
        let ghost v = self@.books;
        let mut i: usize = 0;
        while i < self.books.len()
            invariant
                i <= self.books@.len(),
                v == self@.books,
                v.len() == self.books@.len(),
                books_rise(v.take(i as int), self.last_book as int),
            decreases self.books@.len() - i,
        {
            assert(v[i as int].id == self.books@[i as int].id);
            if self.books[i].id > self.last_book {
                return false;
            }
            if i > 0 {
                assert(v[i - 1].id == self.books@[i - 1].id);
                assert(v.take(i as int)[i - 1] == v[i - 1]);
                if self.books[i - 1].id >= self.books[i].id {
                    return false;
                }
            }
            proof {
                let t = v.take(i as int);
                let u = v.take(i + 1);
                assert forall|a: int, b: int| 0 <= a < b < u.len() implies (#[trigger] u[a]).id < (
                #[trigger] u[b]).id by {
                    assert(u[a] == t[a]);
                    if b < i {
                        assert(u[b] == t[b]);
                    } else if a < i - 1 {
                        assert(t[a].id < t[i - 1].id);
                    }
                }
                assert forall|a: int| 0 <= a < u.len() implies (#[trigger] u[a]).id <= self.last_book by {
                    if a < i {
                        assert(u[a] == t[a]);
                    }
                }
            }
            i += 1;
        }
        assert(v.take(v.len() as int) =~= v);
        true
    }

    fn comments_are_sound(&self) -> (r: bool)
        ensures
            r == comments_rise(self@.comments, self.last_comment as int),
    {
        let ghost v = self@.comments;
        let mut i: usize = 0;
        while i < self.comments.len()
            invariant
                i <= self.comments@.len(),
                v == self@.comments,
                v.len() == self.comments@.len(),
                comments_rise(v.take(i as int), self.last_comment as int),
            decreases self.comments@.len() - i,
        {
            assert(v[i as int].id == self.comments@[i as int].row.id);
            if self.comments[i].row.id > self.last_comment {
                return false;
            }
            if i > 0 {
                assert(v[i - 1].id == self.comments@[i - 1].row.id);
                assert(v.take(i as int)[i - 1] == v[i - 1]);
                if self.comments[i - 1].row.id >= self.comments[i].row.id {
                    return false;
                }
            }
            proof {
                let t = v.take(i as int);
                let u = v.take(i + 1);
                assert forall|a: int, b: int| 0 <= a < b < u.len() implies (#[trigger] u[a]).id < (
                #[trigger] u[b]).id by {
                    assert(u[a] == t[a]);
                    if b < i {
                        assert(u[b] == t[b]);
                    } else if a < i - 1 {
                        assert(t[a].id < t[i - 1].id);
                    }
                }
                assert forall|a: int| 0 <= a < u.len() implies (#[trigger] u[a]).id <= self.last_comment by {
                    if a < i {
                        assert(u[a] == t[a]);
                    }
                }
            }
            i += 1;
        }
        assert(v.take(v.len() as int) =~= v);
        true
    }

    fn sources_are_sound(&self) -> (r: bool)
        ensures
            r == sources_rise(self@.sources, self.last_source as int),
    {
        let ghost v = self@.sources;
        let mut i: usize = 0;
        while i < self.sources.len()
            invariant
                i <= self.sources@.len(),
                v == self@.sources,
                v.len() == self.sources@.len(),
                sources_rise(v.take(i as int), self.last_source as int),
            decreases self.sources@.len() - i,
        {
            assert(v[i as int].id == self.sources@[i as int].id);
            if self.sources[i].id > self.last_source {
                return false;
            }
            if i > 0 {
                assert(v[i - 1].id == self.sources@[i - 1].id);
                assert(v.take(i as int)[i - 1] == v[i - 1]);
                if self.sources[i - 1].id >= self.sources[i].id {
                    return false;
                }
            }
            proof {
                let t = v.take(i as int);
                let u = v.take(i + 1);
                assert forall|a: int, b: int| 0 <= a < b < u.len() implies (#[trigger] u[a]).id < (
                #[trigger] u[b]).id by {
                    assert(u[a] == t[a]);
                    if b < i {
                        assert(u[b] == t[b]);
                    } else if a < i - 1 {
                        assert(t[a].id < t[i - 1].id);
                    }
                }
                assert forall|a: int| 0 <= a < u.len() implies (#[trigger] u[a]).id <= self.last_source by {
                    if a < i {
                        assert(u[a] == t[a]);
                    }
                }
            }
            i += 1;
        }
        assert(v.take(v.len() as int) =~= v);
        true
    }

    fn models_are_sound(&self) -> (r: bool)
        ensures
            r == models_differ(self@.usage),
    {
        let ghost v = self@.usage;
        let mut i: usize = 0;
        while i < self.usage.len()
            invariant
                i <= self.usage@.len(),
                v == self@.usage,
                v.len() == self.usage@.len(),
                forall|a: int, b: int|
                    0 <= a < b < i ==> (#[trigger] v[a]).model != (#[trigger] v[b]).model,
            decreases self.usage@.len() - i,
        {
            let mut k: usize = 0;
            while k < i
                invariant
                    k <= i < self.usage@.len(),
                    v == self@.usage,
                    v.len() == self.usage@.len(),
                    forall|a: int| 0 <= a < k ==> (#[trigger] v[a]).model != v[i as int].model,
                decreases i - k,
            {
                assert(v[k as int].model == self.usage@[k as int].model@);
                assert(v[i as int].model == self.usage@[i as int].model@);
                if same(&self.usage[k].model, &self.usage[i].model) {
                    return false;
                }
                k += 1;
            }
            i += 1;
        }
        true
    }

    fn paths_are_sound(&self) -> (r: bool)
        ensures
            r == paths_differ(self.covers@),
    {
        let mut i: usize = 0;
        while i < self.covers.len()
            invariant
                i <= self.covers@.len(),
                forall|a: int, b: int|
                    0 <= a < b < i ==> (#[trigger] self.covers@[a]).path@ != (
                    #[trigger] self.covers@[b]).path@,
            decreases self.covers@.len() - i,
        {
            let mut k: usize = 0;
            while k < i
                invariant
                    k <= i < self.covers@.len(),
                    forall|a: int|
                        0 <= a < k ==> (#[trigger] self.covers@[a]).path@
                            != self.covers@[i as int].path@,
                decreases i - k,
            {
                if same(&self.covers[k].path, &self.covers[i].path) {
                    return false;
                }
                k += 1;
            }
            i += 1;
        }
        true
    }

    /// Whether rows that were read from elsewhere are in order and no key stands twice.
    pub fn is_sound(&self) -> (r: bool)
        ensures
            r == self.wf(),
    {
        self.books_are_sound() && self.comments_are_sound() && self.sources_are_sound()
            && self.models_are_sound() && self.paths_are_sound()
    }
}

// ---- books ----

/// The catalogue with book `id` changed by `f`.
pub open spec fn with_book(
    c: CatalogView,
    id: int,
    f: spec_fn(BookView) -> BookView,
) -> CatalogView {
    CatalogView {
        books: c.books.map_values(
            |b: BookView|
                if b.id == id {
                    f(b)
                } else {
                    b
                },
        ),
        ..c
    }
}

/// The book with identifier `id`.
pub open spec fn book_of(books: Seq<BookView>, id: int) -> Option<BookView> {
    if exists|i: int| 0 <= i < books.len() && (#[trigger] books[i]).id == id {
        Some(books[choose|i: int| 0 <= i < books.len() && (#[trigger] books[i]).id == id])
    } else {
        None
    }
}

/// `o`, or `d` where it is absent.
pub open spec fn coalesce(o: Option<Seq<char>>, d: Seq<char>) -> Seq<char> {
    match o {
        Some(s) => s,
        None => d,
    }
}

/// `o`, or `d` where it is absent.
pub fn or_text(o: &Option<String>, d: &str) -> (r: String)
    ensures
        r@ == coalesce(opt_str(*o), d@),
{
    match o {
        Some(s) => s.clone(),
        None => d.to_owned(),
    }
}

/// `a`, or `b` where it is absent.
pub open spec fn first_of<T>(a: Option<T>, b: Option<T>) -> Option<T> {
    match a {
        Some(x) => Some(x),
        None => b,
    }
}

/// The characters of an optional string slice.
pub open spec fn opt_view(o: Option<&str>) -> Option<Seq<char>> {
    match o {
        Some(s) => Some(s@),
        None => None,
    }
}

/// An owned copy of an optional string slice.
pub fn own(o: Option<&str>) -> (r: Option<String>)
    ensures
        opt_str(r) == opt_view(o),
{
    match o {
        Some(s) => Some(s.to_owned()),
        None => None,
    }
}

/// Whether an optional string holds the characters of `s`.
pub fn holds(o: &Option<String>, s: &str) -> (r: bool)
    ensures
        r == (opt_str(*o) == Some(s@)),
{
    match o {
        Some(t) => same(t, s),
        None => false,
    }
}

pub proof fn one_book_changed(
    c: CatalogView,
    k: int,
    id: int,
    f: spec_fn(BookView) -> BookView,
    new: Seq<BookView>,
)
    requires
        c.wf(),
        0 <= k < c.books.len(),
        c.books[k].id == id,
        new == c.books.update(k, f(c.books[k])),
        f(c.books[k]).id == id,
    ensures
        new == with_book(c, id, f).books,
        with_book(c, id, f).wf(),
{
    assert forall|i: int| 0 <= i < c.books.len() && i != k implies c.books[i].id != id by {
        if i < k {
            assert(c.books[i].id < c.books[k].id);
        } else {
            assert(c.books[k].id < c.books[i].id);
        }
    }
    assert(new =~= with_book(c, id, f).books);
    assert forall|i: int, j: int| 0 <= i < j < new.len() implies (#[trigger] new[i]).id < (
    #[trigger] new[j]).id by {
        assert(c.books[i].id < c.books[j].id);
    }
    assert forall|i: int| 0 <= i < new.len() implies (#[trigger] new[i]).id <= c.last_book by {
        assert(c.books[i].id <= c.last_book);
    }
}

pub proof fn no_book_changed(c: CatalogView, id: int, f: spec_fn(BookView) -> BookView)
    requires
        c.wf(),
        forall|i: int| 0 <= i < c.books.len() ==> (#[trigger] c.books[i]).id != id,
    ensures
        with_book(c, id, f) == c,
{
    assert(with_book(c, id, f).books =~= c.books);
}

impl Catalog {
    /// Where book `id` stands.
    pub fn book_at(&self, id: i64) -> (r: Option<usize>)
        ensures
            match r {
                Some(k) => k < self.books@.len() && self@.books[k as int].id == id && (self.wf()
                    ==> book_of(self@.books, id as int) == Some(self@.books[k as int])),
                None => forall|i: int|
                    0 <= i < self@.books.len() ==> (#[trigger] self@.books[i]).id != id,
            },
            r is None ==> book_of(self@.books, id as int) is None,
    {
        let mut i: usize = 0;
        while i < self.books.len()
            invariant
                i <= self.books@.len(),
                forall|j: int| 0 <= j < i ==> (#[trigger] self@.books[j]).id != id,
            decreases self.books@.len() - i,
        {
            assert(self@.books[i as int] == self.books@[i as int]@);
            if self.books[i].id == id {
                proof {
                    let k = choose|k: int|
                        0 <= k < self@.books.len() && (#[trigger] self@.books[k]).id == id;
                    if self.wf() && k != i {
                        if k < i {
                            assert(self@.books[k].id < self@.books[i as int].id);
                        } else {
                            assert(self@.books[i as int].id < self@.books[k].id);
                        }
                    }
                }
                return Some(i);
            }
            i += 1;
        }
        None
    }

    /// Replaces the tags of a book.
    pub fn set_book_tags(&mut self, book_id: i64, tags: &str)
        requires
            old(self).wf(),
        ensures
            final(self).wf(),
            final(self)@ == with_book(
                old(self)@,
                book_id as int,
                |b: BookView| BookView { tags: Some(tags@), ..b },
            ),
    {
        let ghost c = self@;
        let ghost f = |b: BookView| BookView { tags: Some(tags@), ..b };
        match self.book_at(book_id) {
            Some(k) => {
                self.books[k].tags = Some(tags.to_owned());
                proof {
                    assert(self@.books =~= c.books.update(k as int, f(c.books[k as int])));
                    one_book_changed(c, k as int, book_id as int, f, self@.books);
                }
            },
            None => {
                proof {
                    no_book_changed(c, book_id as int, f);
                }
            },
        }
    }

    /// Replaces the series of a book; without a name the book has none.
    pub fn set_book_series(
        &mut self,
        book_id: i64,
        series_name: Option<&str>,
        series_order: Option<i64>,
    )
        requires
            old(self).wf(),
        ensures
            final(self).wf(),
            final(self)@ == with_book(
                old(self)@,
                book_id as int,
                |b: BookView| BookView { series_name: opt_view(series_name), series_order, ..b },
            ),
    {
        let ghost c = self@;
        let ghost f = |b: BookView| BookView { series_name: opt_view(series_name), series_order, ..b };
        match self.book_at(book_id) {
            Some(k) => {
                self.books[k].series_name = own(series_name);
                self.books[k].series_order = series_order;
                proof {
                    assert(self@.books =~= c.books.update(k as int, f(c.books[k as int])));
                    one_book_changed(c, k as int, book_id as int, f, self@.books);
                }
            },
            None => {
                proof {
                    no_book_changed(c, book_id as int, f);
                }
            },
        }
    }

    /// Replaces the description of a book.
    pub fn set_book_description(&mut self, book_id: i64, description: Option<&str>)
        requires
            old(self).wf(),
        ensures
            final(self).wf(),
            final(self)@ == with_book(
                old(self)@,
                book_id as int,
                |b: BookView| BookView { description: opt_view(description), ..b },
            ),
    {
        let ghost c = self@;
        let ghost f = |b: BookView| BookView { description: opt_view(description), ..b };
        match self.book_at(book_id) {
            Some(k) => {
                self.books[k].description = own(description);
                proof {
                    assert(self@.books =~= c.books.update(k as int, f(c.books[k as int])));
                    one_book_changed(c, k as int, book_id as int, f, self@.books);
                }
            },
            None => {
                proof {
                    no_book_changed(c, book_id as int, f);
                }
            },
        }
    }

    /// Puts a book into a library.
    pub fn set_book_library(&mut self, book_id: i64, library_id: &str)
        requires
            old(self).wf(),
        ensures
            final(self).wf(),
            final(self)@ == with_book(
                old(self)@,
                book_id as int,
                |b: BookView| BookView { library_id: Some(library_id@), ..b },
            ),
    {
        let ghost c = self@;
        let ghost f = |b: BookView| BookView { library_id: Some(library_id@), ..b };
        match self.book_at(book_id) {
            Some(k) => {
                self.books[k].library_id = Some(library_id.to_owned());
                proof {
                    assert(self@.books =~= c.books.update(k as int, f(c.books[k as int])));
                    one_book_changed(c, k as int, book_id as int, f, self@.books);
                }
            },
            None => {
                proof {
                    no_book_changed(c, book_id as int, f);
                }
            },
        }
    }

    /// Replaces the name of a book's file in the library.
    pub fn set_library_file(&mut self, book_id: i64, library_file: &str)
        requires
            old(self).wf(),
        ensures
            final(self).wf(),
            final(self)@ == with_book(
                old(self)@,
                book_id as int,
                |b: BookView| BookView { library_file: Some(library_file@), ..b },
            ),
    {
        let ghost c = self@;
        let ghost f = |b: BookView| BookView { library_file: Some(library_file@), ..b };
        match self.book_at(book_id) {
            Some(k) => {
                self.books[k].library_file = Some(library_file.to_owned());
                proof {
                    assert(self@.books =~= c.books.update(k as int, f(c.books[k as int])));
                    one_book_changed(c, k as int, book_id as int, f, self@.books);
                }
            },
            None => {
                proof {
                    no_book_changed(c, book_id as int, f);
                }
            },
        }
    }

    /// Records which books a book was merged from.
    pub fn set_merged_from(&mut self, book_id: i64, merged_from: &str)
        requires
            old(self).wf(),
        ensures
            final(self).wf(),
            final(self)@ == with_book(
                old(self)@,
                book_id as int,
                |b: BookView| BookView { merged_from: Some(merged_from@), ..b },
            ),
    {
        let ghost c = self@;
        let ghost f = |b: BookView| BookView { merged_from: Some(merged_from@), ..b };
        match self.book_at(book_id) {
            Some(k) => {
                self.books[k].merged_from = Some(merged_from.to_owned());
                proof {
                    assert(self@.books =~= c.books.update(k as int, f(c.books[k as int])));
                    one_book_changed(c, k as int, book_id as int, f, self@.books);
                }
            },
            None => {
                proof {
                    no_book_changed(c, book_id as int, f);
                }
            },
        }
    }

    /// Replaces the reader's review of a book.
    pub fn save_review(&mut self, book_id: i64, review: &str)
        requires
            old(self).wf(),
        ensures
            final(self).wf(),
            final(self)@ == with_book(
                old(self)@,
                book_id as int,
                |b: BookView| BookView { my_review: Some(review@), ..b },
            ),
    {
        let ghost c = self@;
        let ghost f = |b: BookView| BookView { my_review: Some(review@), ..b };
        match self.book_at(book_id) {
            Some(k) => {
                self.books[k].my_review = Some(review.to_owned());
                proof {
                    assert(self@.books =~= c.books.update(k as int, f(c.books[k as int])));
                    one_book_changed(c, k as int, book_id as int, f, self@.books);
                }
            },
            None => {
                proof {
                    no_book_changed(c, book_id as int, f);
                }
            },
        }
    }

    /// Marks a book as read at the time `now`.
    pub fn mark_book_finished(&mut self, book_id: i64, now: &str)
        requires
            old(self).wf(),
        ensures
            final(self).wf(),
            final(self)@ == with_book(
                old(self)@,
                book_id as int,
                |b: BookView| BookView { status: Some("已读"@), finished_date: Some(now@), ..b },
            ),
    {
        let ghost c = self@;
        let ghost f = |b: BookView| BookView { status: Some("已读"@), finished_date: Some(now@), ..b };
        match self.book_at(book_id) {
            Some(k) => {
                self.books[k].status = Some("已读".to_owned());
                self.books[k].finished_date = Some(now.to_owned());
                proof {
                    assert(self@.books =~= c.books.update(k as int, f(c.books[k as int])));
                    one_book_changed(c, k as int, book_id as int, f, self@.books);
                }
            },
            None => {
                proof {
                    no_book_changed(c, book_id as int, f);
                }
            },
        }
    }

    /// Replaces the status of a book. One that is read now was finished at the time `now`;
    /// any other status keeps the date.
    pub fn set_book_status(&mut self, book_id: i64, status: &str, now: &str)
        requires
            old(self).wf(),
        ensures
            final(self).wf(),
            final(self)@ == with_book(
                old(self)@,
                book_id as int,
                |b: BookView| BookView {
                    status: Some(status@),
                    finished_date: if status@ == "已读"@ {
                        Some(now@)
                    } else {
                        b.finished_date
                    },
                    ..b
                },
            ),
    {
        let ghost c = self@;
        let ghost f = |b: BookView| BookView {
                    status: Some(status@),
                    finished_date: if status@ == "已读"@ {
                        Some(now@)
                    } else {
                        b.finished_date
                    },
                    ..b
                };
        match self.book_at(book_id) {
            Some(k) => {
                self.books[k].status = Some(status.to_owned());
                if same(status, "已读") {
                    self.books[k].finished_date = Some(now.to_owned());
                }
                proof {
                    assert(self@.books =~= c.books.update(k as int, f(c.books[k as int])));
                    one_book_changed(c, k as int, book_id as int, f, self@.books);
                }
            },
            None => {
                proof {
                    no_book_changed(c, book_id as int, f);
                }
            },
        }
    }

    /// Replaces the Douban addresses of a book and, where they are given, its entry ids.
    pub fn set_book_match_urls(
        &mut self,
        book_id: i64,
        clasp_ids_json: Option<&str>,
        douban_urls_json: &str,
    )
        requires
            old(self).wf(),
        ensures
            final(self).wf(),
            final(self)@ == with_book(
                old(self)@,
                book_id as int,
                |b: BookView| BookView {
                    clasp_ids: first_of(opt_view(clasp_ids_json), b.clasp_ids),
                    douban_urls: Some(douban_urls_json@),
                    ..b
                },
            ),
    {
        let ghost c = self@;
        let ghost f = |b: BookView| BookView {
                    clasp_ids: first_of(opt_view(clasp_ids_json), b.clasp_ids),
                    douban_urls: Some(douban_urls_json@),
                    ..b
                };
        match self.book_at(book_id) {
            Some(k) => {
                if clasp_ids_json.is_some() {
                    self.books[k].clasp_ids = own(clasp_ids_json);
                }
                self.books[k].douban_urls = Some(douban_urls_json.to_owned());
                proof {
                    assert(self@.books =~= c.books.update(k as int, f(c.books[k as int])));
                    one_book_changed(c, k as int, book_id as int, f, self@.books);
                }
            },
            None => {
                proof {
                    no_book_changed(c, book_id as int, f);
                }
            },
        }
    }

    /// Replaces what the reader edits of a book.
    pub fn update_book_meta(
        &mut self,
        book_id: i64,
        title: &str,
        author: &str,
        tags: &str,
        description: Option<&str>,
    )
        requires
            old(self).wf(),
        ensures
            final(self).wf(),
            final(self)@ == with_book(
                old(self)@,
                book_id as int,
                |b: BookView| BookView {
                    title: title@,
                    author: Some(author@),
                    tags: Some(tags@),
                    description: opt_view(description),
                    ..b
                },
            ),
    {
        let ghost c = self@;
        let ghost f = |b: BookView| BookView {
                    title: title@,
                    author: Some(author@),
                    tags: Some(tags@),
                    description: opt_view(description),
                    ..b
                };
        match self.book_at(book_id) {
            Some(k) => {
                self.books[k].title = title.to_owned();
                self.books[k].author = Some(author.to_owned());
                self.books[k].tags = Some(tags.to_owned());
                self.books[k].description = own(description);
                proof {
                    assert(self@.books =~= c.books.update(k as int, f(c.books[k as int])));
                    one_book_changed(c, k as int, book_id as int, f, self@.books);
                }
            },
            None => {
                proof {
                    no_book_changed(c, book_id as int, f);
                }
            },
        }
    }

    /// Replaces what is given of a book's description, cover, series, file and entry ids.
    pub fn update_book_enrichment(
        &mut self,
        book_id: i64,
        description: Option<&str>,
        cover_path: Option<&str>,
        series_name: Option<&str>,
        series_order: Option<i64>,
        library_file: Option<&str>,
        clasp_ids: Option<&str>,
    )
        requires
            old(self).wf(),
        ensures
            final(self).wf(),
            final(self)@ == with_book(
                old(self)@,
                book_id as int,
                |b: BookView|
                    enriched(
                        b,
                        opt_view(description),
                        opt_view(cover_path),
                        opt_view(series_name),
                        series_order,
                        opt_view(library_file),
                        opt_view(clasp_ids),
                    ),
            ),
    {
        let ghost c = self@;
        let ghost f = |b: BookView|
            enriched(
                b,
                opt_view(description),
                opt_view(cover_path),
                opt_view(series_name),
                series_order,
                opt_view(library_file),
                opt_view(clasp_ids),
            );
        match self.book_at(book_id) {
            Some(k) => {
                enrich(
                    &mut self.books[k],
                    description,
                    cover_path,
                    series_name,
                    series_order,
                    library_file,
                    clasp_ids,
                );
                proof {
                    assert(self@.books =~= c.books.update(k as int, f(c.books[k as int])));
                    one_book_changed(c, k as int, book_id as int, f, self@.books);
                }
            },
            None => {
                proof {
                    no_book_changed(c, book_id as int, f);
                }
            },
        }
    }

    /// Replaces the cover of a book, without touching the reference counts.
    pub(crate) fn put_cover(&mut self, book_id: i64, cover_path: &str)
        requires
            old(self).wf(),
        ensures
            final(self).wf(),
            final(self).covers == old(self).covers,
            final(self)@ == with_book(
                old(self)@,
                book_id as int,
                |b: BookView| BookView { cover_path: Some(cover_path@), ..b },
            ),
    {
        let ghost c = self@;
        let ghost f = |b: BookView| BookView { cover_path: Some(cover_path@), ..b };
        match self.book_at(book_id) {
            Some(k) => {
                self.books[k].cover_path = Some(cover_path.to_owned());
                proof {
                    assert(self@.books =~= c.books.update(k as int, f(c.books[k as int])));
                    one_book_changed(c, k as int, book_id as int, f, self@.books);
                }
            },
            None => {
                proof {
                    no_book_changed(c, book_id as int, f);
                }
            },
        }
    }

    /// Adds a book and gives its identifier. A new book is one that the reader wants to
    /// read.
    pub fn insert_book(
        &mut self,
        title: &str,
        author: &str,
        tags: &str,
        file_path: &str,
        clasp_ids: &str,
    ) -> (r: Result<i64, DbError>)
        requires
            old(self).wf(),
        ensures
            final(self).wf(),
            match r {
                Ok(id) => {
                    &&& id == old(self).last_book + 1
                    &&& final(self)@ == with_new_book(
                        old(self)@,
                        new_book(title@, author@, tags@, file_path@, clasp_ids@),
                    )
                },
                Err(e) => {
                    &&& e == DbError::Full
                    &&& old(self).last_book == i64::MAX
                    &&& *final(self) == *old(self)
                },
            },
    {
        if self.last_book == i64::MAX {
            return Err(DbError::Full);
        }
        let ghost c = self@;
        let id: i64 = self.last_book + 1;
        let book = BookRec {
            id,
            title: title.to_owned(),
            author: Some(author.to_owned()),
            tags: Some(tags.to_owned()),
            file_path: Some(file_path.to_owned()),
            status: Some("想读".to_owned()),
            my_review: None,
            finished_date: None,
            description: None,
            cover_path: None,
            series_name: None,
            series_order: None,
            library_file: None,
            clasp_ids: Some(clasp_ids.to_owned()),
            merged_from: None,
            douban_urls: None,
            library_id: None,
        };
        self.push_book(book);
        Ok(id)
    }

    /// Adds a book that has the next identifier.
    pub fn push_book(&mut self, book: BookRec)
        requires
            old(self).wf(),
            book.id == old(self).last_book + 1,
        ensures
            final(self).wf(),
            final(self).covers == old(self).covers,
            final(self)@ == with_new_book(old(self)@, book@),
    {
        let ghost c = self@;
        self.last_book = book.id;
        self.books.push(book);
        proof {
            assert(self@.books =~= c.books.push(book@));
            let new = self@.books;
            assert forall|i: int, j: int| 0 <= i < j < new.len() implies (#[trigger] new[i]).id < (
            #[trigger] new[j]).id by {
                if j < c.books.len() {
                    assert(c.books[i].id < c.books[j].id);
                } else {
                    assert(c.books[i].id <= c.last_book);
                }
            }
            assert forall|i: int| 0 <= i < new.len() implies (#[trigger] new[i]).id
                <= self.last_book by {
                if i < c.books.len() {
                    assert(c.books[i].id <= c.last_book);
                }
            }
        }
    }

    /// Puts the books that are in no library into `library_id`, and counts them.
    pub fn assign_legacy_books(&mut self, library_id: &str) -> (n: usize)
        requires
            old(self).wf(),
        ensures
            final(self).wf(),
            final(self)@ == (CatalogView {
                books: old(self)@.books.map_values(|b: BookView| adopted(b, library_id@)),
                ..old(self)@
            }),
            n == old(self)@.books.filter(|b: BookView| b.library_id is None).len(),
    {
        let ghost c = self@;
        let ghost f = |b: BookView| adopted(b, library_id@);
        let ghost homeless = |b: BookView| b.library_id is None;
        let mut n: usize = 0;
        let mut i: usize = 0;
        proof {
            filter_none(c.books, homeless);
        }
        while i < self.books.len()
            invariant
                i <= self.books@.len(),
                self.books@.len() == c.books.len(),
                f == |b: BookView| adopted(b, library_id@),
                homeless == |b: BookView| b.library_id is None,
                n == c.books.take(i as int).filter(homeless).len(),
                n <= i,
                self@ == (CatalogView { books: self@.books, ..c }),
                self.covers == old(self).covers,
                forall|j: int| 0 <= j < i ==> self@.books[j] == f(c.books[j]),
                forall|j: int| i <= j < c.books.len() ==> self@.books[j] == c.books[j],
            decreases self.books@.len() - i,
        {
            proof {
                filter_step(c.books, i as int, homeless);
                assert(self@.books[i as int] == self.books@[i as int]@);
            }
            let ghost was = self@.books;
            if self.books[i].library_id.is_none() {
                self.books[i].library_id = Some(library_id.to_owned());
                n += 1;
                assert(self@.books =~= was.update(i as int, f(c.books[i as int])));
            }
            i += 1;
        }
        proof {
            take_all(c.books);
            assert(self@.books =~= c.books.map_values(f));
            let new = self@.books;
            assert forall|i: int, j: int| 0 <= i < j < new.len() implies (#[trigger] new[i]).id < (
            #[trigger] new[j]).id by {
                assert(c.books[i].id < c.books[j].id);
            }
            assert forall|i: int| 0 <= i < new.len() implies (#[trigger] new[i]).id
                <= self.last_book by {
                assert(c.books[i].id <= c.last_book);
            }
        }
        n
    }
}

/// `b` with what is given of its description, cover, series, file and entry ids.
pub open spec fn enriched(
    b: BookView,
    description: Option<Seq<char>>,
    cover_path: Option<Seq<char>>,
    series_name: Option<Seq<char>>,
    series_order: Option<i64>,
    library_file: Option<Seq<char>>,
    clasp_ids: Option<Seq<char>>,
) -> BookView {
    BookView {
        description: first_of(description, b.description),
        cover_path: first_of(cover_path, b.cover_path),
        series_name: first_of(series_name, b.series_name),
        series_order: first_of(series_order, b.series_order),
        library_file: first_of(library_file, b.library_file),
        clasp_ids: first_of(clasp_ids, b.clasp_ids),
        ..b
    }
}

fn replace_given(field: &mut Option<String>, given: Option<&str>)
    ensures
        opt_str(*final(field)) == first_of(opt_view(given), opt_str(*old(field))),
{
    if let Some(s) = given {
        *field = Some(s.to_owned());
    }
}

fn enrich(
    b: &mut BookRec,
    description: Option<&str>,
    cover_path: Option<&str>,
    series_name: Option<&str>,
    series_order: Option<i64>,
    library_file: Option<&str>,
    clasp_ids: Option<&str>,
)
    ensures
        final(b)@ == enriched(
            old(b)@,
            opt_view(description),
            opt_view(cover_path),
            opt_view(series_name),
            series_order,
            opt_view(library_file),
            opt_view(clasp_ids),
        ),
{
    replace_given(&mut b.description, description);
    replace_given(&mut b.cover_path, cover_path);
    replace_given(&mut b.series_name, series_name);
    if series_order.is_some() {
        b.series_order = series_order;
    }
    replace_given(&mut b.library_file, library_file);
    replace_given(&mut b.clasp_ids, clasp_ids);
}

/// A book that was just added.
pub open spec fn new_book(
    title: Seq<char>,
    author: Seq<char>,
    tags: Seq<char>,
    file_path: Seq<char>,
    clasp_ids: Seq<char>,
) -> BookView {
    BookView {
        id: 0,
        title,
        author: Some(author),
        tags: Some(tags),
        file_path: Some(file_path),
        status: Some("想读"@),
        my_review: None,
        finished_date: None,
        description: None,
        cover_path: None,
        series_name: None,
        series_order: None,
        library_file: None,
        clasp_ids: Some(clasp_ids),
        merged_from: None,
        douban_urls: None,
        library_id: None,
    }
}

/// The catalogue with one book more, under the next identifier.
pub open spec fn with_new_book(c: CatalogView, b: BookView) -> CatalogView {
    CatalogView {
        books: c.books.push(BookView { id: c.last_book + 1, ..b }),
        last_book: c.last_book + 1,
        ..c
    }
}

/// `b`, in `library` where it was in none.
pub open spec fn adopted(b: BookView, library: Seq<char>) -> BookView {
    if b.library_id is None {
        BookView { library_id: Some(library), ..b }
    } else {
        b
    }
}

// ---- single books ----

/// The book that is found under an identifier is the one that has it; none is found where none
/// has it.
pub proof fn a_book_is_found_by_its_identifier(c: CatalogView, k: int, id: int)
    requires
        c.wf(),
    ensures
        0 <= k < c.books.len() ==> book_of(c.books, c.books[k].id) == Some(c.books[k]),
        (forall|i: int| 0 <= i < c.books.len() ==> (#[trigger] c.books[i]).id != id) ==> book_of(
            c.books,
            id,
        ) is None,
{
    if 0 <= k < c.books.len() {
        let x = c.books[k].id;
        let i = choose|i: int| 0 <= i < c.books.len() && (#[trigger] c.books[i]).id == x;
        if i < k {
            assert(c.books[i].id < c.books[k].id);
        } else if k < i {
            assert(c.books[k].id < c.books[i].id);
        }
    }
}

/// What is known of a book is put in place of what it had, and what is not known stays; its
/// title, its author, its tags, its status and all else stay.
pub proof fn what_is_known_replaces_what_was(
    b: BookView,
    description: Option<Seq<char>>,
    cover_path: Option<Seq<char>>,
    series_name: Option<Seq<char>>,
    series_order: Option<i64>,
    library_file: Option<Seq<char>>,
    clasp_ids: Option<Seq<char>>,
)
    ensures
        ({
            let z = enriched(
                b,
                description,
                cover_path,
                series_name,
                series_order,
                library_file,
                clasp_ids,
            );
            &&& z.description == (if description is Some { description } else { b.description })
            &&& z.cover_path == (if cover_path is Some { cover_path } else { b.cover_path })
            &&& z.series_name == (if series_name is Some { series_name } else { b.series_name })
            &&& z.series_order == (if series_order is Some { series_order } else { b.series_order })
            &&& z.library_file == (if library_file is Some { library_file } else { b.library_file })
            &&& z.clasp_ids == (if clasp_ids is Some { clasp_ids } else { b.clasp_ids })
            &&& z.id == b.id && z.title == b.title && z.author == b.author && z.tags == b.tags
            &&& z.file_path == b.file_path && z.status == b.status && z.my_review == b.my_review
            &&& z.finished_date == b.finished_date && z.merged_from == b.merged_from
            &&& z.douban_urls == b.douban_urls && z.library_id == b.library_id
        }),
{
}

/// A new book has what is given of it and is to be read; it has no review, no date, no
/// description, no cover, no series and no library yet. It comes last, under an identifier that
/// no book has.
pub proof fn a_new_book_is_to_be_read(
    c: CatalogView,
    title: Seq<char>,
    author: Seq<char>,
    tags: Seq<char>,
    file_path: Seq<char>,
    clasp_ids: Seq<char>,
)
    requires
        c.wf(),
    ensures
        ({
            let e = with_new_book(c, new_book(title, author, tags, file_path, clasp_ids));
            let b = e.books.last();
            &&& e.books.len() == c.books.len() + 1
            &&& c.books.is_prefix_of(e.books)
            &&& forall|i: int| 0 <= i < c.books.len() ==> (#[trigger] c.books[i]).id < b.id
            &&& b.id == c.last_book + 1 && e.last_book == b.id
            &&& b.title == title && b.author == Some(author) && b.tags == Some(tags)
            &&& b.file_path == Some(file_path) && b.clasp_ids == Some(clasp_ids)
            &&& b.status == Some("想读"@)
            &&& b.my_review is None && b.finished_date is None && b.description is None
            &&& b.cover_path is None && b.series_name is None && b.series_order is None
            &&& b.library_file is None && b.merged_from is None && b.douban_urls is None
            &&& b.library_id is None
            &&& e.comments == c.comments && e.sources == c.sources && e.covers == c.covers
        }),
{
}

/// A book without a library is adopted by the one that is given; one that has a library stays in
/// it. Nothing else of it changes.
pub proof fn a_book_without_a_library_is_adopted(b: BookView, library: Seq<char>)
    ensures
        b.library_id is Some ==> adopted(b, library) == b,
        b.library_id is None ==> adopted(b, library) == (BookView {
            library_id: Some(library),
            ..b
        }),
{
}

/// Changing a book changes that book alone.
pub proof fn other_books_stay(c: CatalogView, id: int, f: spec_fn(BookView) -> BookView, k: int)
    requires
        0 <= k < c.books.len(),
    ensures
        with_book(c, id, f).books.len() == c.books.len(),
        c.books[k].id == id ==> with_book(c, id, f).books[k] == f(c.books[k]),
        c.books[k].id != id ==> with_book(c, id, f).books[k] == c.books[k],
        with_book(c, id, f).comments == c.comments,
        with_book(c, id, f).sources == c.sources,
        with_book(c, id, f).covers == c.covers,
{
}

} // verus!
