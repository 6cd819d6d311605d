//! The comments and the sources of books, and the covers that go with them.
use vstd::prelude::*;
use vstd::string::*;

use crate::covers::{
    edition_paths, editions_paths, orphans_of, ref_added, refs_added, release_keeps_rows,
    released_all, is_orphan, ref_released,
};
use crate::db::{
    book_of, books_rise, comments_rise, first_of, holds, opt_view, own, sources_rise, with_book,
    BookView, Catalog, CatalogView, CommentRec, CommentRow, CommentView, DbError, SourceRec,
    SourceRow, SourceView,
};
use crate::json::{json_of_strings, write_strings};
use crate::seqs::{
    arrange, arranged_is_sorted, chosen_places, filter_from, filter_none, filter_rises, filter_step,
    map_push, picked, rising, sorted_by, take_all,
};
use crate::sorting::{key_views, text_le, KeyView, SortKey};
use crate::text::{clone_opt, opt_str, same, strs, strs_push};

verus! {

// ---- comments ----

/// Which comments are meant.
pub enum CommentFilter {
    /// Those of a book.
    OfBook(i64),
    /// Those of a book that the reader did not write.
    FetchedOf(i64),
    /// Those of a book that were fetched from one source.
    FetchedFrom(i64, String),
}

impl CommentFilter {
    /// Whether `c` is meant.
    pub open spec fn hits(self, c: CommentView) -> bool {
        match self {
            CommentFilter::OfBook(b) => c.book_id == b,
            CommentFilter::FetchedOf(b) => c.book_id == b && c.is_mine == 0,
            CommentFilter::FetchedFrom(b, r) => c.book_id == b && c.is_mine == 0 && c.source_ref
                == Some(r@),
        }
    }

    fn accepts(&self, c: &CommentRec) -> (r: bool)
        ensures
            r == self.hits(c@),
    {
        match self {
            CommentFilter::OfBook(b) => c.book_id == *b,
            CommentFilter::FetchedOf(b) => c.book_id == *b && c.row.is_mine == 0,
            CommentFilter::FetchedFrom(b, r) => c.book_id == *b && c.row.is_mine == 0 && holds(
                &c.row.source_ref,
                r,
            ),
        }
    }
}

/// The catalogue without the comments that are meant.
pub open spec fn without_comments(c: CatalogView, f: CommentFilter) -> CatalogView {
    CatalogView { comments: c.comments.filter(|x: CommentView| !f.hits(x)), ..c }
}

/// The catalogue with one comment more, under the next identifier.
pub open spec fn with_new_comment(c: CatalogView, x: CommentView) -> CatalogView {
    CatalogView {
        comments: c.comments.push(CommentView { id: c.last_comment + 1, ..x }),
        last_comment: c.last_comment + 1,
        ..c
    }
}

/// The catalogue without a book's sources that `gone` accepts.
pub open spec fn without_sources(
    c: CatalogView,
    gone: spec_fn(SourceView) -> bool,
) -> CatalogView {
    CatalogView { sources: c.sources.filter(|s: SourceView| !gone(s)), ..c }
}

/// The catalogue with one source more, under the next identifier.
pub open spec fn with_new_source(c: CatalogView, s: SourceView) -> CatalogView {
    CatalogView {
        sources: c.sources.push(SourceView { id: c.last_source + 1, ..s }),
        last_source: c.last_source + 1,
        ..c
    }
}

/// Which sources are meant.
pub enum SourceFilter {
    /// Those of a book.
    OfBook(i64),
    /// Those of a book that are of one kind.
    OfKind(i64, String),
    /// The one of a book with a kind and a reference.
    One(i64, String, String),
}

impl SourceFilter {
    /// Whether `s` is meant.
    pub open spec fn hits(self, s: SourceView) -> bool {
        match self {
            SourceFilter::OfBook(b) => s.book_id == b,
            SourceFilter::OfKind(b, k) => s.book_id == b && s.kind == k@,
            SourceFilter::One(b, k, r) => is_source(s, b as int, k@, r@),
        }
    }

    fn accepts(&self, s: &SourceRec) -> (r: bool)
        ensures
            r == self.hits(s@),
    {
        match self {
            SourceFilter::OfBook(b) => s.book_id == *b,
            SourceFilter::OfKind(b, k) => s.book_id == *b && same(&s.row.kind, k),
            SourceFilter::One(b, k, r) => s.is_one(*b, k, r),
        }
    }
}

/// Whether `s` is the source of `book` with this kind and reference.
pub open spec fn is_source(s: SourceView, book: int, kind: Seq<char>, ref_key: Seq<char>) -> bool {
    s.book_id == book && s.kind == kind && s.ref_key == ref_key
}

impl SourceRec {
    fn is_one(&self, book_id: i64, kind: &str, ref_key: &str) -> (r: bool)
        ensures
            r == is_source(self@, book_id as int, kind@, ref_key@),
    {
        self.book_id == book_id && same(&self.row.kind, kind) && same(&self.row.ref_key, ref_key)
    }
}

proof fn comments_rise_is_rising(v: Seq<CommentView>, last: int)
    ensures
        comments_rise(v, last) == rising(v, |c: CommentView| c.id, last),
{
    let id = |c: CommentView| c.id;
    if comments_rise(v, last) {
        assert forall|i: int, j: int| 0 <= i < j < v.len() implies id(#[trigger] v[i]) < id(
            #[trigger] v[j],
        ) by {
            assert(v[i].id < v[j].id);
        }
        assert forall|i: int| 0 <= i < v.len() implies id(#[trigger] v[i]) <= last by {
            assert(v[i].id <= last);
        }
    }
    if rising(v, id, last) {
        assert forall|i: int, j: int| 0 <= i < j < v.len() implies (#[trigger] v[i]).id < (
        #[trigger] v[j]).id by {
            assert(id(v[i]) < id(v[j]));
        }
        assert forall|i: int| 0 <= i < v.len() implies (#[trigger] v[i]).id <= last by {
            assert(id(v[i]) <= last);
        }
    }
}

proof fn sources_rise_is_rising(v: Seq<SourceView>, last: int)
    ensures
        sources_rise(v, last) == rising(v, |s: SourceView| s.id, last),
{
    let id = |s: SourceView| s.id;
    if sources_rise(v, last) {
        assert forall|i: int, j: int| 0 <= i < j < v.len() implies id(#[trigger] v[i]) < id(
            #[trigger] v[j],
        ) by {
            assert(v[i].id < v[j].id);
        }
        assert forall|i: int| 0 <= i < v.len() implies id(#[trigger] v[i]) <= last by {
            assert(v[i].id <= last);
        }
    }
    if rising(v, id, last) {
        assert forall|i: int, j: int| 0 <= i < j < v.len() implies (#[trigger] v[i]).id < (
        #[trigger] v[j]).id by {
            assert(id(v[i]) < id(v[j]));
        }
        assert forall|i: int| 0 <= i < v.len() implies (#[trigger] v[i]).id <= last by {
            assert(id(v[i]) <= last);
        }
    }
}

proof fn books_rise_is_rising(v: Seq<BookView>, last: int)
    ensures
        books_rise(v, last) == rising(v, |b: BookView| b.id, last),
{
    let id = |b: BookView| b.id;
    if books_rise(v, last) {
        assert forall|i: int, j: int| 0 <= i < j < v.len() implies id(#[trigger] v[i]) < id(
            #[trigger] v[j],
        ) by {
            assert(v[i].id < v[j].id);
        }
        assert forall|i: int| 0 <= i < v.len() implies id(#[trigger] v[i]) <= last by {
            assert(v[i].id <= last);
        }
    }
    if rising(v, id, last) {
        assert forall|i: int, j: int| 0 <= i < j < v.len() implies (#[trigger] v[i]).id < (
        #[trigger] v[j]).id by {
            assert(id(v[i]) < id(v[j]));
        }
        assert forall|i: int| 0 <= i < v.len() implies (#[trigger] v[i]).id <= last by {
            assert(id(v[i]) <= last);
        }
    }
}

impl Catalog {
    /// Takes out the comments that are meant, and counts them.
    pub fn remove_comments(&mut self, f: &CommentFilter) -> (n: usize)
        requires
            old(self).wf(),
        ensures
            final(self).wf(),
            final(self).covers == old(self).covers,
            final(self)@ == without_comments(old(self)@, *f),
            n == old(self)@.comments.filter(|x: CommentView| f.hits(x)).len(),
    {
        let ghost c = self@;
        let ghost all = c.comments;
        let ghost keep = |x: CommentView| !f.hits(x);
        let ghost hit = |x: CommentView| f.hits(x);
        let size: usize = self.comments.len();
        let mut n: usize = 0;
        let mut i: usize = 0;
        let ghost mut done: int = 0;
        proof {
            filter_none(all, keep);
            filter_none(all, hit);
            assert(Seq::<CommentView>::empty() + all.skip(0) =~= all);
        }
        while i < self.comments.len()
            invariant
                0 <= done <= all.len(),
                all.len() == size,
                n <= done,
                i <= self.comments@.len(),
                keep == |x: CommentView| !f.hits(x),
                hit == |x: CommentView| f.hits(x),
                i == all.take(done).filter(keep).len(),
                n == all.take(done).filter(hit).len(),
                self@.comments == all.take(done).filter(keep) + all.skip(done),
                self@ == (CatalogView { comments: self@.comments, ..c }),
                self.covers == old(self).covers,
            decreases self.comments@.len() - i,
        {
            let ghost kept = all.take(done).filter(keep);
            proof {
                assert(self@.comments.len() == self.comments@.len());
                filter_step(all, done, keep);
                filter_step(all, done, hit);
                assert(self@.comments[i as int] == all[done]);
                assert(self@.comments[i as int] == self.comments@[i as int]@);
            }
            let ghost was = self@.comments;
            if f.accepts(&self.comments[i]) {
                let _ = self.comments.remove(i);
                n += 1;
                proof {
                    assert(self@.comments =~= was.remove(i as int));
                    assert(self@.comments =~= kept + all.skip(done + 1));
                }
            } else {
                i += 1;
                proof {
                    assert(self@.comments =~= kept.push(all[done]) + all.skip(done + 1));
                }
            }
            proof {
                done = done + 1;
            }
        }
        proof {
            assert(self@.comments.len() == self.comments@.len());
            assert(done == all.len());
            take_all(all);
            assert(self@.comments =~= all.filter(keep));
            comments_rise_is_rising(all, c.last_comment);
            filter_rises(all, keep, |x: CommentView| x.id, c.last_comment);
            comments_rise_is_rising(all.filter(keep), c.last_comment);
        }
        n
    }

    /// Adds a comment that has the next identifier.
    pub fn push_comment(&mut self, comment: CommentRec)
        requires
            old(self).wf(),
            comment.row.id == old(self).last_comment + 1,
        ensures
            final(self).wf(),
            final(self).covers == old(self).covers,
            final(self)@ == with_new_comment(old(self)@, comment@),
    {
        let ghost c = self@;
        self.last_comment = comment.row.id;
        self.comments.push(comment);
        proof {
            assert(self@.comments =~= c.comments.push(comment@));
            let new = self@.comments;
            assert forall|i: int, j: int| 0 <= i < j < new.len() implies (#[trigger] new[i]).id < (
            #[trigger] new[j]).id by {
                if j < c.comments.len() {
                    assert(c.comments[i].id < c.comments[j].id);
                } else {
                    assert(c.comments[i].id <= c.last_comment);
                }
            }
            assert forall|i: int| 0 <= i < new.len() implies (#[trigger] new[i]).id
                <= self.last_comment by {
                if i < c.comments.len() {
                    assert(c.comments[i].id <= c.last_comment);
                }
            }
        }
    }

    /// Adds a comment that was fetched.
    pub fn insert_comment(
        &mut self,
        book_id: i64,
        rating: Option<i32>,
        content: &str,
        usefulness: i32,
        source: &str,
        source_ref: Option<&str>,
    ) -> (r: Result<(), DbError>)
        requires
            old(self).wf(),
        ensures
            final(self).wf(),
            match r {
                Ok(_) => final(self)@ == with_new_comment(
                    old(self)@,
                    (CommentView {
                        book_id: book_id as int,
                        id: 0,
                        rating,
                        content: content@,
                        usefulness,
                        source: source@,
                        is_mine: 0,
                        source_ref: opt_view(source_ref),
                    }),
                ),
                Err(e) => {
                    &&& e == DbError::Full
                    &&& old(self).last_comment == i64::MAX
                    &&& *final(self) == *old(self)
                },
            },
            old(self).last_comment < i64::MAX ==> r is Ok,
    {
        if self.last_comment == i64::MAX {
            return Err(DbError::Full);
        }
        let row = CommentRow {
            id: self.last_comment + 1,
            rating,
            content: content.to_owned(),
            usefulness,
            source: source.to_owned(),
            is_mine: 0,
            source_ref: own(source_ref),
        };
        self.push_comment(CommentRec { book_id, row });
        Ok(())
    }

    /// Adds a comment that the reader wrote with the assistant.
    pub fn insert_my_comment(&mut self, book_id: i64, content: &str) -> (r: Result<(), DbError>)
        requires
            old(self).wf(),
        ensures
            final(self).wf(),
            match r {
                Ok(_) => final(self)@ == with_new_comment(
                    old(self)@,
                    (CommentView {
                        book_id: book_id as int,
                        id: 0,
                        rating: None,
                        content: content@,
                        usefulness: 0,
                        source: "AI助手生成"@,
                        is_mine: 1,
                        source_ref: None,
                    }),
                ),
                Err(e) => {
                    &&& e == DbError::Full
                    &&& old(self).last_comment == i64::MAX
                    &&& *final(self) == *old(self)
                },
            },
            old(self).last_comment < i64::MAX ==> r is Ok,
    {
        if self.last_comment == i64::MAX {
            return Err(DbError::Full);
        }
        let row = CommentRow {
            id: self.last_comment + 1,
            rating: None,
            content: content.to_owned(),
            usefulness: 0,
            source: "AI助手生成".to_owned(),
            is_mine: 1,
            source_ref: None,
        };
        self.push_comment(CommentRec { book_id, row });
        Ok(())
    }

    /// Takes out the comments of a book that the reader did not write, and counts them.
    pub fn delete_douban_comments(&mut self, book_id: i64) -> (n: usize)
        requires
            old(self).wf(),
        ensures
            final(self).wf(),
            final(self)@ == without_comments(old(self)@, CommentFilter::FetchedOf(book_id)),
            n == old(self)@.comments.filter(
                |x: CommentView| CommentFilter::FetchedOf(book_id).hits(x),
            ).len(),
    {
        self.remove_comments(&CommentFilter::FetchedOf(book_id))
    }

    /// Takes out the comments of a book that were fetched from one source, and counts them.
    pub fn delete_comments_for_source(&mut self, book_id: i64, source_ref: &str) -> (n: usize)
        requires
            old(self).wf(),
        ensures
            final(self).wf(),
            final(self).covers == old(self).covers,
            final(self)@ == comments_cleared(old(self)@, book_id as int, source_ref@),
            n == old(self)@.comments.filter(
                |x: CommentView|
                    x.book_id == book_id && x.is_mine == 0 && x.source_ref == Some(source_ref@),
            ).len(),
    {
        let ghost c = self@;
        let f = CommentFilter::FetchedFrom(book_id, source_ref.to_owned());
        proof {
            assert((|x: CommentView| !f.hits(x)) =~= (|x: CommentView|
                !(x.book_id == book_id && x.is_mine == 0 && x.source_ref == Some(source_ref@))));
            assert((|x: CommentView| f.hits(x)) =~= (|x: CommentView|
                x.book_id == book_id && x.is_mine == 0 && x.source_ref == Some(source_ref@)));
        }
        self.remove_comments(&f)
    }
}

/// The catalogue without the comments of `book` that were fetched from `source_ref`.
pub open spec fn comments_cleared(
    c: CatalogView,
    book: int,
    source_ref: Seq<char>,
) -> CatalogView {
    CatalogView {
        comments: c.comments.filter(
            |x: CommentView|
                !(x.book_id == book && x.is_mine == 0 && x.source_ref == Some(source_ref)),
        ),
        ..c
    }
}

// ---- sources ----

/// By what the sources of a book are listed.
pub open spec fn source_key(s: SourceView) -> KeyView {
    KeyView { text: s.kind, a: s.position, b: s.id }
}

/// The sources of `book`: by kind, then by position, then by identifier.
pub open spec fn sources_of(v: Seq<SourceView>, book: int) -> Seq<SourceView> {
    sorted_by(v.filter(|s: SourceView| s.book_id == book), |s: SourceView| source_key(s))
}

/// Whether `r` shows what `v` holds.
pub open spec fn source_is(r: SourceRow, v: SourceView) -> bool {
    (SourceRec { id: 0, book_id: 0, row: r })@ == (SourceView { id: 0, book_id: 0, ..v })
}

/// A copy of a source.
pub fn copy_source(r: &SourceRow) -> (c: SourceRow)
    ensures
        c == *r,
{
    SourceRow {
        kind: r.kind.clone(),
        ref_key: r.ref_key.clone(),
        position: r.position,
        title: clone_opt(&r.title),
        author: clone_opt(&r.author),
        cover_url: clone_opt(&r.cover_url),
        cover_path: clone_opt(&r.cover_path),
        summary: clone_opt(&r.summary),
        tags: clone_opt(&r.tags),
        series_name: clone_opt(&r.series_name),
        series_order: r.series_order,
        editions: clone_opt(&r.editions),
    }
}

/// The optional path as a list.
pub open spec fn opt_list(o: Option<Seq<char>>) -> Seq<Seq<char>> {
    match o {
        Some(p) => seq![p],
        None => Seq::empty(),
    }
}

/// The cover files of a source: its cover, then those of its editions.
pub open spec fn source_paths(s: SourceView) -> Seq<Seq<char>> {
    opt_list(s.cover_path) + edition_paths(s.editions)
}

/// The cover files of the first `n` sources.
pub open spec fn sources_paths(v: Seq<SourceView>, n: nat) -> Seq<Seq<char>>
    decreases n,
{
    if n == 0 {
        Seq::empty()
    } else {
        sources_paths(v, (n - 1) as nat) + source_paths(v[n - 1])
    }
}

fn push_all(out: &mut Vec<String>, more: &Vec<String>)
    ensures
        strs(final(out)@) == strs(old(out)@) + strs(more@),
{
    let ghost was = strs(out@);
    let mut i: usize = 0;
    assert(was + strs(more@).take(0) =~= was);
    while i < more.len()
        invariant
            i <= more@.len(),
            strs(out@) == was + strs(more@).take(i as int),
        decreases more@.len() - i,
    {
        proof {
            strs_push(out@, more@[i as int]);
        }
        out.push(more[i].clone());
        i += 1;
        assert(strs(out@) =~= was + strs(more@).take(i as int));
    }
    assert(strs(more@).take(more@.len() as int) =~= strs(more@));
}

fn push_opt(out: &mut Vec<String>, o: &Option<String>)
    ensures
        strs(final(out)@) == strs(old(out)@) + opt_list(opt_str(*o)),
{
    let ghost was = strs(out@);
    match o {
        Some(p) => {
            proof {
                strs_push(out@, *p);
            }
            out.push(p.clone());
            assert(strs(out@) =~= was + seq![p@]);
        },
        None => {
            assert(strs(out@) =~= was + Seq::<Seq<char>>::empty());
        },
    }
}

impl Catalog {
    /// Where the sources of a book stand, in the order in which they are listed.
    pub fn sources_at(&self, book_id: i64) -> (r: Vec<usize>)
        ensures
            picked(self@.sources, r@) == sources_of(self@.sources, book_id as int),
            forall|i: int| 0 <= i < r@.len() ==> (#[trigger] r@[i]) < self.sources@.len(),
    {
        let ghost all = self@.sources;
        let ghost mine = |s: SourceView| s.book_id == book_id as int;
        let ghost key = |s: SourceView| source_key(s);
        let mut sel: Vec<usize> = Vec::new();
        let mut keys: Vec<SortKey> = Vec::new();
        let mut i: usize = 0;
        proof {
            filter_none(all, mine);
            assert(picked(all, sel@) =~= all.take(0).filter(mine));
            assert(key_views(keys@) =~= picked(all, sel@).map_values(key));
        }
        while i < self.sources.len()
            invariant
                i <= self.sources@.len(),
                all == self@.sources,
                mine == |s: SourceView| s.book_id == book_id as int,
                key == |s: SourceView| source_key(s),
                picked(all, sel@) == all.take(i as int).filter(mine),
                key_views(keys@) == picked(all, sel@).map_values(key),
                forall|k: int| 0 <= k < sel@.len() ==> (#[trigger] sel@[k]) < self.sources@.len(),
            decreases self.sources@.len() - i,
        {
            proof {
                filter_step(all, i as int, mine);
                assert(all[i as int] == self.sources@[i as int]@);
            }
            if self.sources[i].book_id == book_id {
                let ghost was = sel@;
                let ghost kwas = keys@;
                let k = SortKey {
                    text: self.sources[i].row.kind.clone(),
                    a: self.sources[i].row.position as i128,
                    b: self.sources[i].id as i128,
                };
                sel.push(i);
                keys.push(k);
                proof {
                    assert(picked(all, sel@) =~= picked(all, was).push(all[i as int]));
                    assert(key_views(keys@) =~= key_views(kwas).push(k@));
                    map_push(picked(all, was), all[i as int], key);
                    assert(k@ == source_key(all[i as int]));
                }
            }
            i += 1;
        }
        proof {
            take_all(all);
            assert(picked(all, sel@).len() == sel@.len());
            assert(key_views(keys@).len() == keys@.len());
            assert(picked(all, sel@).map_values(key).len() == sel@.len());
        }
        let r = arrange(&sel, &keys);
        proof {
            arranged_is_sorted(all, sel@, key_views(keys@), key, r@);
            assert forall|k: int| 0 <= k < r@.len() implies (#[trigger] r@[k]) < self.sources@.len() by {
                assert(sel@.contains(r@[k]));
                let j = choose|j: int| 0 <= j < sel@.len() && sel@[j] == r@[k];
                assert(sel@[j] < self.sources@.len());
            }
        }
        r
    }

    /// The sources of a book: by kind, then by position, then by identifier.
    pub fn list_sources(&self, book_id: i64) -> (r: Vec<SourceRow>)
        ensures
            r@.len() == sources_of(self@.sources, book_id as int).len(),
            forall|i: int|
                0 <= i < r@.len() ==> source_is(
                    #[trigger] r@[i],
                    sources_of(self@.sources, book_id as int)[i],
                ),
    {
        let idx = self.sources_at(book_id);
        let ghost want = sources_of(self@.sources, book_id as int);
        assert(picked(self@.sources, idx@).len() == idx@.len());
        let mut out: Vec<SourceRow> = Vec::new();
        let mut i: usize = 0;
        while i < idx.len()
            invariant
                i <= idx@.len(),
                out@.len() == i,
                want == sources_of(self@.sources, book_id as int),
                picked(self@.sources, idx@) == want,
                forall|k: int| 0 <= k < idx@.len() ==> (#[trigger] idx@[k]) < self.sources@.len(),
                forall|k: int| 0 <= k < i ==> source_is(#[trigger] out@[k], want[k]),
            decreases idx@.len() - i,
        {
            assert(want[i as int] == self@.sources[idx@[i as int] as int]);
            assert(want[i as int] == self.sources@[idx@[i as int] as int]@);
            out.push(copy_source(&self.sources[idx[i]].row));
            i += 1;
        }
        out
    }

    /// The cover files of the sources at the places `idx`.
    fn paths_at(&self, idx: &Vec<usize>) -> (r: Vec<String>)
        requires
            forall|i: int| 0 <= i < idx@.len() ==> (#[trigger] idx@[i]) < self.sources@.len(),
        ensures
            strs(r@) == sources_paths(picked(self@.sources, idx@), idx@.len()),
    {
        let ghost rows = picked(self@.sources, idx@);
        let mut out: Vec<String> = Vec::new();
        let mut i: usize = 0;
        assert(strs(out@) =~= sources_paths(rows, 0));
        while i < idx.len()
            invariant
                i <= idx@.len(),
                rows == picked(self@.sources, idx@),
                forall|k: int| 0 <= k < idx@.len() ==> (#[trigger] idx@[k]) < self.sources@.len(),
                strs(out@) == sources_paths(rows, i as nat),
            decreases idx@.len() - i,
        {
            let ghost before = strs(out@);
            let k: usize = idx[i];
            assert(rows[i as int] == self.sources@[k as int]@);
            push_opt(&mut out, &self.sources[k].row.cover_path);
            push_all(&mut out, &editions_paths(&self.sources[k].row.editions));
            i += 1;
            assert(strs(out@) =~= before + source_paths(rows[i - 1]));
        }
        out
    }

    /// Adds a source that has the next identifier, without touching the reference counts.
    pub fn push_source(&mut self, source: SourceRec)
        requires
            old(self).wf(),
            source.id == old(self).last_source + 1,
        ensures
            final(self).wf(),
            final(self).covers == old(self).covers,
            final(self)@ == with_new_source(old(self)@, source@),
    {
        let ghost c = self@;
        self.last_source = source.id;
        self.sources.push(source);
        proof {
            assert(self@.sources =~= c.sources.push(source@));
            let new = self@.sources;
            assert forall|i: int, j: int| 0 <= i < j < new.len() implies (#[trigger] new[i]).id < (
            #[trigger] new[j]).id by {
                if j < c.sources.len() {
                    assert(c.sources[i].id < c.sources[j].id);
                } else {
                    assert(c.sources[i].id <= c.last_source);
                }
            }
            assert forall|i: int| 0 <= i < new.len() implies (#[trigger] new[i]).id
                <= self.last_source by {
                if i < c.sources.len() {
                    assert(c.sources[i].id <= c.last_source);
                }
            }
        }
    }

    /// Adds a source to a book and registers its cover files.
    pub fn insert_source(&mut self, book_id: i64, row: SourceRow) -> (r: Result<(), DbError>)
        requires
            old(self).wf(),
        ensures
            final(self).wf(),
            match r {
                Ok(_) => final(self)@ == source_inserted(
                    old(self)@,
                    (SourceRec { id: 0, book_id, row })@,
                ),
                Err(e) => {
                    &&& e == DbError::Full
                    &&& old(self).last_source == i64::MAX
                    &&& *final(self) == *old(self)
                },
            },
            old(self).last_source < i64::MAX ==> r is Ok,
    {
        if self.last_source == i64::MAX {
            return Err(DbError::Full);
        }
        let ghost c = self@;
        let mut paths: Vec<String> = Vec::new();
        push_opt(&mut paths, &row.cover_path);
        push_all(&mut paths, &editions_paths(&row.editions));
        let ghost v = (SourceRec { id: 0, book_id, row })@;
        proof {
            let none: Seq<Seq<char>> = Seq::empty();
            assert(strs(paths@) =~= source_paths(v));
        }
        let rec = SourceRec { id: self.last_source + 1, book_id, row };
        self.push_source(rec);
        self.add_paths(&paths);
        Ok(())
    }

    /// Takes out the sources that are meant, and counts them.
    pub fn remove_sources(&mut self, f: &SourceFilter) -> (n: usize)
        requires
            old(self).wf(),
        ensures
            final(self).wf(),
            final(self).covers == old(self).covers,
            final(self)@ == without_sources(old(self)@, |s: SourceView| f.hits(s)),
            n == old(self)@.sources.filter(|s: SourceView| f.hits(s)).len(),
    {
        let ghost c = self@;
        let ghost all = c.sources;
        let ghost hit = |s: SourceView| f.hits(s);
        let ghost keep = |s: SourceView| !hit(s);
        let size: usize = self.sources.len();
        let mut n: usize = 0;
        let mut i: usize = 0;
        let ghost mut done: int = 0;
        proof {
            filter_none(all, keep);
            filter_none(all, hit);
            assert(Seq::<SourceView>::empty() + all.skip(0) =~= all);
        }
        while i < self.sources.len()
            invariant
                0 <= done <= all.len(),
                all.len() == size,
                n <= done,
                i <= self.sources@.len(),
                hit == |s: SourceView| f.hits(s),
                keep == |s: SourceView| !hit(s),
                i == all.take(done).filter(keep).len(),
                n == all.take(done).filter(hit).len(),
                self@.sources == all.take(done).filter(keep) + all.skip(done),
                self@ == (CatalogView { sources: self@.sources, ..c }),
                self.covers == old(self).covers,
            decreases self.sources@.len() - i,
        {
            let ghost kept = all.take(done).filter(keep);
            proof {
                assert(self@.sources.len() == self.sources@.len());
                filter_step(all, done, keep);
                filter_step(all, done, hit);
                assert(self@.sources[i as int] == all[done]);
                assert(self@.sources[i as int] == self.sources@[i as int]@);
            }
            let ghost was = self@.sources;
            if f.accepts(&self.sources[i]) {
                let _ = self.sources.remove(i);
                n += 1;
                proof {
                    assert(self@.sources =~= was.remove(i as int));
                    assert(self@.sources =~= kept + all.skip(done + 1));
                }
            } else {
                i += 1;
                proof {
                    assert(self@.sources =~= kept.push(all[done]) + all.skip(done + 1));
                }
            }
            proof {
                done = done + 1;
            }
        }
        proof {
            assert(self@.sources.len() == self.sources@.len());
            assert(done == all.len());
            take_all(all);
            assert(self@.sources =~= all.filter(keep));
            sources_rise_is_rising(all, c.last_source);
            filter_rises(all, keep, |x: SourceView| x.id, c.last_source);
            sources_rise_is_rising(all.filter(keep), c.last_source);
        }
        n
    }

    /// Takes out a book's row.
    pub fn remove_book_row(&mut self, book_id: i64)
        requires
            old(self).wf(),
        ensures
            final(self).wf(),
            final(self).covers == old(self).covers,
            final(self)@ == (CatalogView {
                books: old(self)@.books.filter(|b: BookView| b.id != book_id),
                ..old(self)@
            }),
    {
        let ghost c = self@;
        let ghost all = c.books;
        let ghost keep = |b: BookView| b.id != book_id;
        let size: usize = self.books.len();
        let mut i: usize = 0;
        let ghost mut done: int = 0;
        proof {
            filter_none(all, keep);
            assert(Seq::<BookView>::empty() + all.skip(0) =~= all);
        }
        while i < self.books.len()
            invariant
                0 <= done <= all.len(),
                i <= self.books@.len(),
                keep == |b: BookView| b.id != book_id,
                i == all.take(done).filter(keep).len(),
                self@.books == all.take(done).filter(keep) + all.skip(done),
                self@ == (CatalogView { books: self@.books, ..c }),
                self.covers == old(self).covers,
            decreases self.books@.len() - i,
        {
            let ghost kept = all.take(done).filter(keep);
            proof {
                assert(self@.books.len() == self.books@.len());
                filter_step(all, done, keep);
                assert(self@.books[i as int] == all[done]);
                assert(self@.books[i as int] == self.books@[i as int]@);
            }
            let ghost was = self@.books;
            if self.books[i].id == book_id {
                let _ = self.books.remove(i);
                proof {
                    assert(self@.books =~= was.remove(i as int));
                    assert(self@.books =~= kept + all.skip(done + 1));
                }
            } else {
                i += 1;
                proof {
                    assert(self@.books =~= kept.push(all[done]) + all.skip(done + 1));
                }
            }
            proof {
                done = done + 1;
            }
        }
        proof {
            assert(self@.books.len() == self.books@.len());
            take_all(all);
            assert(self@.books =~= all.filter(keep));
            books_rise_is_rising(all, c.last_book);
            filter_rises(all, keep, |x: BookView| x.id, c.last_book);
            books_rise_is_rising(all.filter(keep), c.last_book);
        }
    }

    /// Takes out a book with its comments and sources, and releases their cover files.
    /// Gives the files that nothing refers to any more.
    pub fn delete_book(&mut self, book_id: i64) -> (r: Vec<String>)
        requires
            old(self).wf(),
        ensures
            final(self).wf(),
            final(self)@ == released_all(
                rows_deleted(old(self)@, book_id as int),
                book_paths(old(self)@, book_id as int),
            ),
            strs(r@) == orphans_of(
                rows_deleted(old(self)@, book_id as int),
                book_paths(old(self)@, book_id as int),
            ),
    {
        let ghost c = self@;
        let mut paths: Vec<String> = Vec::new();
        assert(strs(paths@) =~= Seq::<Seq<char>>::empty());
        if let Some(k) = self.book_at(book_id) {
            push_opt(&mut paths, &self.books[k].cover_path);
        }
        let ghost own = strs(paths@);
        assert(own =~= (match book_of(c.books, book_id as int) {
            Some(b) => opt_list(b.cover_path),
            None => Seq::empty(),
        }));
        let idx = self.sources_at(book_id);
        assert(picked(self@.sources, idx@).len() == idx@.len());
        let more = self.paths_at(&idx);
        push_all(&mut paths, &more);
        self.remove_comments(&CommentFilter::OfBook(book_id));
        self.remove_sources(&SourceFilter::OfBook(book_id));
        self.remove_book_row(book_id);
        proof {
            assert((|x: CommentView| !CommentFilter::OfBook(book_id).hits(x)) =~= (|x: CommentView|
                x.book_id != book_id as int));
            let hit = |s: SourceView| SourceFilter::OfBook(book_id).hits(s);
            assert((|s: SourceView| !hit(s)) =~= (|s: SourceView| s.book_id != book_id as int));
            assert((|b: BookView| b.id != book_id) =~= (|b: BookView| b.id != book_id as int));
            assert(self@ == rows_deleted(c, book_id as int));
        }
        self.release_paths(&paths)
    }
}

/// The catalogue with one source more, its cover files registered.
pub open spec fn source_inserted(c: CatalogView, s: SourceView) -> CatalogView {
    CatalogView {
        covers: refs_added(c.covers, source_paths(s)),
        ..with_new_source(c, s)
    }
}

/// The catalogue without a book, its comments and its sources.
pub open spec fn rows_deleted(c: CatalogView, book: int) -> CatalogView {
    CatalogView {
        books: c.books.filter(|b: BookView| b.id != book),
        comments: c.comments.filter(|x: CommentView| x.book_id != book),
        sources: c.sources.filter(|s: SourceView| s.book_id != book),
        ..c
    }
}

/// The cover files of a book: its own cover, then those of its sources.
pub open spec fn book_paths(c: CatalogView, book: int) -> Seq<Seq<char>> {
    let own = match book_of(c.books, book) {
        Some(b) => opt_list(b.cover_path),
        None => Seq::empty(),
    };
    let rows = sources_of(c.sources, book);
    own + sources_paths(rows, rows.len())
}

// ---- changing sources ----

/// The catalogue with the sources that `hit` accepts changed by `f`.
pub open spec fn with_sources(
    c: CatalogView,
    hit: spec_fn(SourceView) -> bool,
    f: spec_fn(SourceView) -> SourceView,
) -> CatalogView {
    CatalogView {
        sources: c.sources.map_values(
            |s: SourceView|
                if hit(s) {
                    f(s)
                } else {
                    s
                },
        ),
        ..c
    }
}

/// The first source that `hit` accepts.
pub open spec fn first_source(v: Seq<SourceView>, hit: spec_fn(SourceView) -> bool) -> Option<
    SourceView,
> {
    let all = v.filter(hit);
    if all.len() > 0 {
        Some(all[0])
    } else {
        None
    }
}

/// The catalogue with the sources of `book` moved to the places that the first `n`
/// references of `refs` have.
pub open spec fn reordered_first(
    c: CatalogView,
    book: int,
    kind: Seq<char>,
    refs: Seq<Seq<char>>,
    n: nat,
) -> CatalogView
    decreases n,
{
    if n == 0 {
        c
    } else {
        with_sources(
            reordered_first(c, book, kind, refs, (n - 1) as nat),
            |s: SourceView| is_source(s, book, kind, refs[n - 1]),
            |s: SourceView| SourceView { position: ((n - 1) as i64) as int, ..s },
        )
    }
}

/// `s` with new data: what is absent of the title, author, address, summary and tags
/// stays, the rest is replaced.
pub open spec fn refreshed(s: SourceView, m: SourceView) -> SourceView {
    SourceView {
        title: first_of(m.title, s.title),
        author: first_of(m.author, s.author),
        cover_url: first_of(m.cover_url, s.cover_url),
        cover_path: m.cover_path,
        summary: first_of(m.summary, s.summary),
        tags: first_of(m.tags, s.tags),
        series_name: m.series_name,
        series_order: m.series_order,
        editions: m.editions,
        ..s
    }
}

/// The catalogue with a source's rows refreshed, the counts not yet moved.
pub open spec fn rows_refreshed(c: CatalogView, m: SourceView) -> CatalogView {
    with_sources(
        c,
        |s: SourceView| is_source(s, m.book_id, m.kind, m.ref_key),
        |s: SourceView| refreshed(s, m),
    )
}

/// The cover that a source had.
pub open spec fn old_cover(c: CatalogView, m: SourceView) -> Option<Seq<char>> {
    match first_source(c.sources, |s: SourceView| is_source(s, m.book_id, m.kind, m.ref_key)) {
        Some(s) => s.cover_path,
        None => None,
    }
}

/// The editions that a source had.
pub open spec fn old_editions(c: CatalogView, m: SourceView) -> Option<Seq<char>> {
    match first_source(c.sources, |s: SourceView| is_source(s, m.book_id, m.kind, m.ref_key)) {
        Some(s) => s.editions,
        None => None,
    }
}

/// The catalogue with one reference to each path more.
pub open spec fn paths_added(c: CatalogView, paths: Seq<Seq<char>>) -> CatalogView {
    CatalogView { covers: refs_added(c.covers, paths), ..c }
}

/// The catalogue once the count of the cover has moved from `old` to `new`.
pub open spec fn cover_moved(
    c: CatalogView,
    old: Option<Seq<char>>,
    new: Option<Seq<char>>,
) -> CatalogView {
    if old == new {
        c
    } else {
        paths_added(released_all(c, opt_list(old)), opt_list(new))
    }
}

/// The catalogue once the counts of the edition covers have moved from `old` to `new`.
pub open spec fn editions_moved(
    c: CatalogView,
    old: Option<Seq<char>>,
    new: Option<Seq<char>>,
) -> CatalogView {
    if old == new {
        c
    } else {
        paths_added(released_all(c, edition_paths(old)), edition_paths(new))
    }
}

/// The catalogue after a source was fetched anew.
pub open spec fn source_refreshed(c: CatalogView, m: SourceView) -> CatalogView {
    editions_moved(
        cover_moved(rows_refreshed(c, m), old_cover(c, m), m.cover_path),
        old_editions(c, m),
        m.editions,
    )
}

/// The files that nothing refers to any more after a source was fetched anew.
pub open spec fn refresh_orphans(c: CatalogView, m: SourceView) -> Seq<Seq<char>> {
    let rows = rows_refreshed(c, m);
    let moved = cover_moved(rows, old_cover(c, m), m.cover_path);
    (if old_cover(c, m) == m.cover_path {
        Seq::empty()
    } else {
        orphans_of(rows, opt_list(old_cover(c, m)))
    }) + (if old_editions(c, m) == m.editions {
        Seq::empty()
    } else {
        orphans_of(moved, edition_paths(old_editions(c, m)))
    })
}

proof fn sources_changed_rise(
    c: CatalogView,
    hit: spec_fn(SourceView) -> bool,
    f: spec_fn(SourceView) -> SourceView,
)
    requires
        c.wf(),
        forall|s: SourceView| (#[trigger] f(s)).id == s.id,
    ensures
        with_sources(c, hit, f).wf(),
{
    let v = c.sources;
    let w = with_sources(c, hit, f).sources;
    assert forall|i: int, j: int| 0 <= i < j < w.len() implies (#[trigger] w[i]).id < (
    #[trigger] w[j]).id by {
        assert(v[i].id < v[j].id);
        assert(f(v[i]).id == v[i].id);
        assert(f(v[j]).id == v[j].id);
    }
    assert forall|i: int| 0 <= i < w.len() implies (#[trigger] w[i]).id <= c.last_source by {
        assert(v[i].id <= c.last_source);
        assert(f(v[i]).id == v[i].id);
    }
}

/// Whether two optional strings are the same.
pub fn same_opt(a: &Option<String>, b: &Option<String>) -> (r: bool)
    ensures
        r == (opt_str(*a) == opt_str(*b)),
{
    match (a, b) {
        (Some(x), Some(y)) => same(x, y),
        (None, None) => true,
        _ => false,
    }
}

fn take_given(field: &mut Option<String>, given: &Option<String>)
    ensures
        opt_str(*final(field)) == first_of(opt_str(*given), opt_str(*old(field))),
{
    if let Some(s) = given {
        *field = Some(s.clone());
    }
}

fn refresh(s: &mut SourceRec, m: &SourceRow)
    ensures
        final(s)@ == refreshed(old(s)@, (SourceRec { id: 0, book_id: 0, row: *m })@),
{
    take_given(&mut s.row.title, &m.title);
    take_given(&mut s.row.author, &m.author);
    take_given(&mut s.row.cover_url, &m.cover_url);
    s.row.cover_path = clone_opt(&m.cover_path);
    take_given(&mut s.row.summary, &m.summary);
    take_given(&mut s.row.tags, &m.tags);
    s.row.series_name = clone_opt(&m.series_name);
    s.row.series_order = m.series_order;
    s.row.editions = clone_opt(&m.editions);
}

impl Catalog {
    /// Where the first source of a book with this kind and reference stands.
    pub fn source_at(&self, book_id: i64, kind: &str, ref_key: &str) -> (r: Option<usize>)
        ensures
            match r {
                Some(k) => k < self.sources@.len() && first_source(
                    self@.sources,
                    |s: SourceView| is_source(s, book_id as int, kind@, ref_key@),
                ) == Some(self@.sources[k as int]),
                None => first_source(
                    self@.sources,
                    |s: SourceView| is_source(s, book_id as int, kind@, ref_key@),
                ) is None,
            },
    {
        let ghost all = self@.sources;
        let ghost hit = |s: SourceView| is_source(s, book_id as int, kind@, ref_key@);
        let mut i: usize = 0;
        proof {
            filter_none(all, hit);
        }
        while i < self.sources.len()
            invariant
                i <= self.sources@.len(),
                all == self@.sources,
                hit == |s: SourceView| is_source(s, book_id as int, kind@, ref_key@),
                all.take(i as int).filter(hit).len() == 0,
            decreases self.sources@.len() - i,
        {
            proof {
                filter_step(all, i as int, hit);
                assert(all[i as int] == self.sources@[i as int]@);
            }
            if self.sources[i].is_one(book_id, kind, ref_key) {
                proof {
                    filter_first(all, i + 1, hit);
                }
                return Some(i);
            }
            i += 1;
        }
        proof {
            take_all(all);
        }
        None
    }

    /// Replaces the series of a source.
    pub fn update_source_series(
        &mut self,
        book_id: i64,
        kind: &str,
        ref_key: &str,
        series_name: Option<&str>,
        series_order: Option<i64>,
    )
        requires
            old(self).wf(),
        ensures
            final(self).wf(),
            final(self)@ == with_sources(
                old(self)@,
                |s: SourceView| is_source(s, book_id as int, kind@, ref_key@),
                |s: SourceView|
                    SourceView { series_name: opt_view(series_name), series_order, ..s },
            ),
    {
        let ghost c = self@;
        let ghost hit = |s: SourceView| is_source(s, book_id as int, kind@, ref_key@);
        let ghost f = |s: SourceView|
            SourceView { series_name: opt_view(series_name), series_order, ..s };
        let mut i: usize = 0;
        while i < self.sources.len()
            invariant
                i <= self.sources@.len(),
                self.sources@.len() == c.sources.len(),
                self@ == (CatalogView { sources: self@.sources, ..c }),
                self.covers == old(self).covers,
                forall|j: int|
                    0 <= j < i ==> self@.sources[j] == with_sources(c, hit, f).sources[j],
                forall|j: int| i <= j < c.sources.len() ==> self@.sources[j] == c.sources[j],
                hit == |s: SourceView| is_source(s, book_id as int, kind@, ref_key@),
                f == |s: SourceView|
                    (SourceView { series_name: opt_view(series_name), series_order, ..s }),
            decreases self.sources@.len() - i,
        {
            let ghost was = self@.sources;
            assert(self@.sources[i as int] == self.sources@[i as int]@);
            if self.sources[i].is_one(book_id, kind, ref_key) {
                self.sources[i].row.series_name = own(series_name);
                self.sources[i].row.series_order = series_order;
                assert(self@.sources =~= was.update(i as int, f(c.sources[i as int])));
            }
            i += 1;
        }
        proof {
            assert(self@.sources =~= with_sources(c, hit, f).sources);
            sources_changed_rise(c, hit, f);
        }
    }

    fn move_source(&mut self, book_id: i64, kind: &str, ref_key: &str, position: i64)
        requires
            old(self).wf(),
        ensures
            final(self).wf(),
            final(self).covers == old(self).covers,
            final(self)@ == with_sources(
                old(self)@,
                |s: SourceView| is_source(s, book_id as int, kind@, ref_key@),
                |s: SourceView| SourceView { position: position as int, ..s },
            ),
    {
        let ghost c = self@;
        let ghost hit = |s: SourceView| is_source(s, book_id as int, kind@, ref_key@);
        let ghost f = |s: SourceView| SourceView { position: position as int, ..s };
        let mut i: usize = 0;
        while i < self.sources.len()
            invariant
                i <= self.sources@.len(),
                self.sources@.len() == c.sources.len(),
                self@ == (CatalogView { sources: self@.sources, ..c }),
                self.covers == old(self).covers,
                forall|j: int|
                    0 <= j < i ==> self@.sources[j] == with_sources(c, hit, f).sources[j],
                forall|j: int| i <= j < c.sources.len() ==> self@.sources[j] == c.sources[j],
                hit == |s: SourceView| is_source(s, book_id as int, kind@, ref_key@),
                f == |s: SourceView| (SourceView { position: position as int, ..s }),
            decreases self.sources@.len() - i,
        {
            let ghost was = self@.sources;
            assert(self@.sources[i as int] == self.sources@[i as int]@);
            if self.sources[i].is_one(book_id, kind, ref_key) {
                self.sources[i].row.position = position;
                assert(self@.sources =~= was.update(i as int, f(c.sources[i as int])));
            }
            i += 1;
        }
        proof {
            assert(self@.sources =~= with_sources(c, hit, f).sources);
            sources_changed_rise(c, hit, f);
        }
    }

    /// Puts the sources of one kind of a book into the order of `refs_in_order`.
    pub fn reorder_sources(&mut self, book_id: i64, kind: &str, refs_in_order: &Vec<String>)
        requires
            old(self).wf(),
        ensures
            final(self).wf(),
            final(self)@ == reordered_first(
                old(self)@,
                book_id as int,
                kind@,
                strs(refs_in_order@),
                refs_in_order@.len(),
            ),
    {
        let ghost c = self@;
        let ghost refs = strs(refs_in_order@);
        let mut i: usize = 0;
        while i < refs_in_order.len()
            invariant
                i <= refs_in_order@.len(),
                self.wf(),
                refs == strs(refs_in_order@),
                self@ == reordered_first(c, book_id as int, kind@, refs, i as nat),
            decreases refs_in_order@.len() - i,
        {
            assert(refs[i as int] == refs_in_order@[i as int]@);
            self.move_source(book_id, kind, &refs_in_order[i], i as i64);
            proof {
                let n = (i + 1) as nat;
                assert((|s: SourceView| is_source(s, book_id as int, kind@, refs[n - 1]))
                    =~= (|s: SourceView|
                    is_source(s, book_id as int, kind@, refs_in_order@[i as int]@)));
                assert((|s: SourceView| SourceView { position: ((n - 1) as i64) as int, ..s })
                    =~= (|s: SourceView| SourceView { position: (i as i64) as int, ..s }));
            }
            i += 1;
        }
    }

    fn refresh_rows(&mut self, book_id: i64, m: &SourceRow)
        requires
            old(self).wf(),
        ensures
            final(self).wf(),
            final(self).covers == old(self).covers,
            final(self)@ == rows_refreshed(
                old(self)@,
                (SourceRec { id: 0, book_id, row: *m })@,
            ),
    {
        let ghost c = self@;
        let ghost mv = (SourceRec { id: 0, book_id, row: *m })@;
        let ghost hit = |s: SourceView| is_source(s, mv.book_id, mv.kind, mv.ref_key);
        let ghost f = |s: SourceView| refreshed(s, mv);
        let mut i: usize = 0;
        while i < self.sources.len()
            invariant
                i <= self.sources@.len(),
                self.sources@.len() == c.sources.len(),
                self@ == (CatalogView { sources: self@.sources, ..c }),
                self.covers == old(self).covers,
                mv == (SourceRec { id: 0, book_id, row: *m })@,
                forall|j: int|
                    0 <= j < i ==> self@.sources[j] == with_sources(c, hit, f).sources[j],
                forall|j: int| i <= j < c.sources.len() ==> self@.sources[j] == c.sources[j],
                hit == |s: SourceView| is_source(s, mv.book_id, mv.kind, mv.ref_key),
                f == |s: SourceView| refreshed(s, mv),
            decreases self.sources@.len() - i,
        {
            let ghost was = self@.sources;
            assert(self@.sources[i as int] == self.sources@[i as int]@);
            if self.sources[i].is_one(book_id, &m.kind, &m.ref_key) {
                refresh(&mut self.sources[i], m);
                assert(self@.sources =~= was.update(i as int, f(c.sources[i as int])));
            }
            i += 1;
        }
        proof {
            assert(self@.sources =~= with_sources(c, hit, f).sources);
            sources_changed_rise(c, hit, f);
        }
    }

    /// Replaces the data of a source that was fetched anew, and moves the counts of its
    /// cover files. Gives the files that nothing refers to any more.
    pub fn update_source_meta(&mut self, book_id: i64, m: &SourceRow) -> (r: Vec<String>)
        requires
            old(self).wf(),
        ensures
            final(self).wf(),
            final(self)@ == source_refreshed(
                old(self)@,
                (SourceRec { id: 0, book_id, row: *m })@,
            ),
            strs(r@) == refresh_orphans(
                old(self)@,
                (SourceRec { id: 0, book_id, row: *m })@,
            ),
    {
        let ghost c = self@;
        let ghost mv = (SourceRec { id: 0, book_id, row: *m })@;
        let old_row: (Option<String>, Option<String>) = match self.source_at(
            book_id,
            &m.kind,
            &m.ref_key,
        ) {
            Some(k) => (
                clone_opt(&self.sources[k].row.cover_path),
                clone_opt(&self.sources[k].row.editions),
            ),
            None => (None, None),
        };
        assert(opt_str(old_row.0) == old_cover(c, mv));
        assert(opt_str(old_row.1) == old_editions(c, mv));
        self.refresh_rows(book_id, m);
        let ghost rows = self@;
        let mut orphans: Vec<String> = Vec::new();
        if !same_opt(&old_row.0, &m.cover_path) {
            let mut from: Vec<String> = Vec::new();
            push_opt(&mut from, &old_row.0);
            let mut to: Vec<String> = Vec::new();
            push_opt(&mut to, &m.cover_path);
            proof {
                assert(strs(from@) =~= opt_list(old_cover(c, mv)));
                assert(strs(to@) =~= opt_list(mv.cover_path));
            }
            let gone = self.release_paths(&from);
            push_all(&mut orphans, &gone);
            self.add_paths(&to);
            assert(strs(orphans@) =~= orphans_of(rows, opt_list(old_cover(c, mv))));
        } else {
            assert(strs(orphans@) =~= Seq::<Seq<char>>::empty());
        }
        let ghost moved = self@;
        let ghost first = strs(orphans@);
        if !same_opt(&old_row.1, &m.editions) {
            let from = editions_paths(&old_row.1);
            let to = editions_paths(&m.editions);
            let gone = self.release_paths(&from);
            push_all(&mut orphans, &gone);
            self.add_paths(&to);
        } else {
            assert(first + Seq::<Seq<char>>::empty() =~= first);
        }
        orphans
    }

    /// Takes out a source with the comments that were fetched from it, and releases its
    /// cover files. Says whether there was one, and gives the files that nothing refers to
    /// any more.
    pub fn delete_source(&mut self, book_id: i64, kind: &str, ref_key: &str) -> (r: (
        bool,
        Vec<String>,
    ))
        requires
            old(self).wf(),
        ensures
            final(self).wf(),
            final(self)@ == source_deleted(old(self)@, book_id as int, kind@, ref_key@),
            r.0 == (first_source(
                old(self)@.sources,
                |s: SourceView| is_source(s, book_id as int, kind@, ref_key@),
            ) is Some),
            strs(r.1@) == orphans_of(
                source_taken(old(self)@, book_id as int, kind@, ref_key@),
                deleted_paths(old(self)@, book_id as int, kind@, ref_key@),
            ),
    {
        let ghost c = self@;
        let ghost hit = |s: SourceView| is_source(s, book_id as int, kind@, ref_key@);
        let mut paths: Vec<String> = Vec::new();
        assert(strs(paths@) =~= Seq::<Seq<char>>::empty());
        if let Some(k) = self.source_at(book_id, kind, ref_key) {
            push_opt(&mut paths, &self.sources[k].row.cover_path);
            push_all(&mut paths, &editions_paths(&self.sources[k].row.editions));
            assert(strs(paths@) =~= source_paths(c.sources[k as int]));
        }
        let f = SourceFilter::One(book_id, kind.to_owned(), ref_key.to_owned());
        proof {
            assert((|s: SourceView| f.hits(s)) =~= hit);
        }
        let n: usize = self.remove_sources(&f);
        assert(self@ == source_taken(c, book_id as int, kind@, ref_key@));
        let orphans = self.release_paths(&paths);
        self.delete_comments_for_source(book_id, ref_key);
        (n > 0, orphans)
    }

    /// Takes out the sources of one kind of a book with the comments that were fetched
    /// from them, and releases their cover files. Gives the files that nothing refers to
    /// any more.
    pub fn clear_sources(&mut self, book_id: i64, kind: &str) -> (r: Vec<String>)
        requires
            old(self).wf(),
        ensures
            final(self).wf(),
            final(self)@ == sources_cleared(old(self)@, book_id as int, kind@),
            strs(r@) == orphans_of(
                kind_taken(old(self)@, book_id as int, kind@),
                kind_paths(old(self)@, book_id as int, kind@),
            ),
    {
        let ghost c = self@;
        let ghost all = sources_of(c.sources, book_id as int);
        let ghost of_kind = |s: SourceView| s.kind == kind@;
        let idx = self.sources_at(book_id);
        let mut sel: Vec<usize> = Vec::new();
        let mut refs: Vec<String> = Vec::new();
        let mut i: usize = 0;
        proof {
            assert(picked(c.sources, idx@).len() == idx@.len());
            filter_none(all, of_kind);
            assert(picked(c.sources, sel@) =~= all.take(0).filter(of_kind));
            assert(strs(refs@) =~= picked(c.sources, sel@).map_values(|s: SourceView| s.ref_key));
        }
        while i < idx.len()
            invariant
                i <= idx@.len(),
                self@ == c,
                self.wf(),
                picked(c.sources, idx@) == all,
                of_kind == |s: SourceView| s.kind == kind@,
                forall|k: int| 0 <= k < idx@.len() ==> (#[trigger] idx@[k]) < self.sources@.len(),
                forall|k: int| 0 <= k < sel@.len() ==> (#[trigger] sel@[k]) < self.sources@.len(),
                picked(c.sources, sel@) == all.take(i as int).filter(of_kind),
                strs(refs@) == picked(c.sources, sel@).map_values(|s: SourceView| s.ref_key),
            decreases idx@.len() - i,
        {
            let k: usize = idx[i];
            proof {
                filter_step(all, i as int, of_kind);
                assert(all[i as int] == c.sources[k as int]);
                assert(c.sources[k as int] == self.sources@[k as int]@);
            }
            if same(&self.sources[k].row.kind, kind) {
                let ghost was = sel@;
                proof {
                    strs_push(refs@, self.sources@[k as int].row.ref_key);
                    map_push(
                        picked(c.sources, was),
                        c.sources[k as int],
                        |s: SourceView| s.ref_key,
                    );
                }
                sel.push(k);
                refs.push(self.sources[k].row.ref_key.clone());
                assert(picked(c.sources, sel@) =~= picked(c.sources, was).push(c.sources[k as int]));
            }
            i += 1;
        }
        proof {
            take_all(all);
            assert(picked(c.sources, sel@).len() == sel@.len());
        }
        let paths = self.paths_at(&sel);
        let f = SourceFilter::OfKind(book_id, kind.to_owned());
        proof {
            assert((|s: SourceView| f.hits(s)) =~= (|s: SourceView|
                s.book_id == book_id as int && s.kind == kind@));
        }
        self.remove_sources(&f);
        assert(self@ == kind_taken(c, book_id as int, kind@));
        let orphans = self.release_paths(&paths);
        let ghost released = self@;
        let ghost keys = strs(refs@);
        let mut j: usize = 0;
        while j < refs.len()
            invariant
                j <= refs@.len(),
                self.wf(),
                keys == strs(refs@),
                self@ == comments_cleared_first(released, book_id as int, keys, j as nat),
            decreases refs@.len() - j,
        {
            assert(keys[j as int] == refs@[j as int]@);
            self.delete_comments_for_source(book_id, &refs[j]);
            j += 1;
        }
        orphans
    }

    /// Writes the references of a book's sources into its lists of entry ids and Douban
    /// addresses.
    pub fn sync_book_source_columns(&mut self, book_id: i64)
        requires
            old(self).wf(),
        ensures
            final(self).wf(),
            final(self)@ == columns_synced(old(self)@, book_id as int),
    {
        let ghost c = self@;
        let clasp = self.refs_of_kind(book_id, "clasp");
        let douban = self.refs_of_kind(book_id, "douban");
        let clasp_json = write_strings(&clasp);
        let douban_json = write_strings(&douban);
        let given: Option<&str> = Some(clasp_json.as_str());
        self.set_book_match_urls(book_id, given, &douban_json);
        proof {
            let id = book_id as int;
            assert((|b: BookView|
                BookView {
                    clasp_ids: first_of(opt_view(given), b.clasp_ids),
                    douban_urls: Some(douban_json@),
                    ..b
                }) =~= (|b: BookView|
                BookView {
                    clasp_ids: Some(json_of_strings(refs_by_kind(c, id, "clasp"@))),
                    douban_urls: Some(json_of_strings(refs_by_kind(c, id, "douban"@))),
                    ..b
                }));
        }
    }

    /// The references of a book's sources of one kind, in the order in which they are
    /// listed.
    pub fn refs_of_kind(&self, book_id: i64, kind: &str) -> (r: Vec<String>)
        ensures
            strs(r@) == refs_by_kind(self@, book_id as int, kind@),
    {
        let ghost all = sources_of(self@.sources, book_id as int);
        let ghost of_kind = |s: SourceView| s.kind == kind@;
        let ghost key = |s: SourceView| s.ref_key;
        let idx = self.sources_at(book_id);
        let mut out: Vec<String> = Vec::new();
        let mut i: usize = 0;
        proof {
            assert(picked(self@.sources, idx@).len() == idx@.len());
            filter_none(all, of_kind);
            assert(strs(out@) =~= all.take(0).filter(of_kind).map_values(key));
        }
        while i < idx.len()
            invariant
                i <= idx@.len(),
                picked(self@.sources, idx@) == all,
                of_kind == |s: SourceView| s.kind == kind@,
                key == |s: SourceView| s.ref_key,
                forall|k: int| 0 <= k < idx@.len() ==> (#[trigger] idx@[k]) < self.sources@.len(),
                strs(out@) == all.take(i as int).filter(of_kind).map_values(key),
            decreases idx@.len() - i,
        {
            let k: usize = idx[i];
            proof {
                filter_step(all, i as int, of_kind);
                assert(all[i as int] == self@.sources[k as int]);
                assert(self@.sources[k as int] == self.sources@[k as int]@);
            }
            if same(&self.sources[k].row.kind, kind) {
                proof {
                    strs_push(out@, self.sources@[k as int].row.ref_key);
                    map_push(all.take(i as int).filter(of_kind), all[i as int], key);
                }
                out.push(self.sources[k].row.ref_key.clone());
            }
            i += 1;
        }
        proof {
            take_all(all);
        }
        out
    }

    /// Replaces the cover of a book: registers the new file and releases the old one,
    /// which is given back where nothing refers to it any more. A cover that the book has
    /// already is not registered again.
    pub fn update_book_cover(&mut self, book_id: i64, cover_path: &str) -> (r: Option<String>)
        requires
            old(self).wf(),
        ensures
            final(self).wf(),
            final(self)@ == cover_updated(old(self)@, book_id as int, cover_path@),
            opt_str(r) == cover_update_orphan(old(self)@, book_id as int, cover_path@),
    {
        let ghost c = self@;
        let old_path: Option<String> = match self.book_at(book_id) {
            Some(k) => clone_opt(&self.books[k].cover_path),
            None => None,
        };
        match &old_path {
            Some(p) => {
                if same(p, cover_path) {
                    return None;
                }
            },
            None => {},
        }
        self.put_cover(book_id, cover_path);
        self.cover_ref_add(cover_path);
        match old_path {
            Some(p) => {
                if self.cover_ref_release(&p) {
                    Some(p)
                } else {
                    None
                }
            },
            None => None,
        }
    }
}

proof fn filter_first<A>(s: Seq<A>, n: int, f: spec_fn(A) -> bool)
    requires
        0 < n <= s.len(),
        s.take(n - 1).filter(f).len() == 0,
        f(s[n - 1]),
    ensures
        s.filter(f).len() > 0,
        s.filter(f)[0] == s[n - 1],
    decreases s.len() - n,
{
    filter_step(s, n - 1, f);
    filter_prefix(s, n, f);
    assert(s.take(n).filter(f)[0] == s[n - 1]);
}

proof fn filter_prefix<A>(s: Seq<A>, n: int, f: spec_fn(A) -> bool)
    requires
        0 <= n <= s.len(),
    ensures
        s.take(n).filter(f).is_prefix_of(s.filter(f)),
    decreases s.len() - n,
{
    if n < s.len() {
        filter_prefix(s, n + 1, f);
        filter_step(s, n, f);
    } else {
        take_all(s);
    }
}

/// The catalogue without a source.
pub open spec fn source_taken(
    c: CatalogView,
    book: int,
    kind: Seq<char>,
    ref_key: Seq<char>,
) -> CatalogView {
    without_sources(c, |s: SourceView| is_source(s, book, kind, ref_key))
}

/// The cover files of a source that is taken out.
pub open spec fn deleted_paths(
    c: CatalogView,
    book: int,
    kind: Seq<char>,
    ref_key: Seq<char>,
) -> Seq<Seq<char>> {
    match first_source(c.sources, |s: SourceView| is_source(s, book, kind, ref_key)) {
        Some(s) => source_paths(s),
        None => Seq::empty(),
    }
}

/// The catalogue without a source, its cover files and its comments.
pub open spec fn source_deleted(
    c: CatalogView,
    book: int,
    kind: Seq<char>,
    ref_key: Seq<char>,
) -> CatalogView {
    comments_cleared(
        released_all(
            source_taken(c, book, kind, ref_key),
            deleted_paths(c, book, kind, ref_key),
        ),
        book,
        ref_key,
    )
}

/// The sources of one kind of a book, in the order in which they are listed.
pub open spec fn sources_by_kind(c: CatalogView, book: int, kind: Seq<char>) -> Seq<SourceView> {
    sources_of(c.sources, book).filter(|s: SourceView| s.kind == kind)
}

/// The references of a book's sources of one kind, in the order in which they are listed.
pub open spec fn refs_by_kind(c: CatalogView, book: int, kind: Seq<char>) -> Seq<Seq<char>> {
    sources_by_kind(c, book, kind).map_values(|s: SourceView| s.ref_key)
}

/// The catalogue without the sources of one kind of a book.
pub open spec fn kind_taken(c: CatalogView, book: int, kind: Seq<char>) -> CatalogView {
    without_sources(c, |s: SourceView| s.book_id == book && s.kind == kind)
}

/// The cover files of a book's sources of one kind.
pub open spec fn kind_paths(c: CatalogView, book: int, kind: Seq<char>) -> Seq<Seq<char>> {
    let rows = sources_by_kind(c, book, kind);
    sources_paths(rows, rows.len())
}

/// The catalogue without the comments of `book` that were fetched from the first `n`
/// references.
pub open spec fn comments_cleared_first(
    c: CatalogView,
    book: int,
    refs: Seq<Seq<char>>,
    n: nat,
) -> CatalogView
    decreases n,
{
    if n == 0 {
        c
    } else {
        comments_cleared(comments_cleared_first(c, book, refs, (n - 1) as nat), book, refs[n - 1])
    }
}

/// The catalogue without the sources of one kind of a book, their cover files and their
/// comments.
pub open spec fn sources_cleared(c: CatalogView, book: int, kind: Seq<char>) -> CatalogView {
    let refs = refs_by_kind(c, book, kind);
    comments_cleared_first(
        released_all(kind_taken(c, book, kind), kind_paths(c, book, kind)),
        book,
        refs,
        refs.len(),
    )
}

/// The catalogue with a book's lists of references as its sources have them.
pub open spec fn columns_synced(c: CatalogView, book: int) -> CatalogView {
    with_book(
        c,
        book,
        |b: BookView|
            BookView {
                clasp_ids: Some(json_of_strings(refs_by_kind(c, book, "clasp"@))),
                douban_urls: Some(json_of_strings(refs_by_kind(c, book, "douban"@))),
                ..b
            },
    )
}

/// The cover of a book.
pub open spec fn cover_of(c: CatalogView, book: int) -> Option<Seq<char>> {
    match book_of(c.books, book) {
        Some(b) => b.cover_path,
        None => None,
    }
}

/// The catalogue with a book's new cover, the old one not yet released.
pub open spec fn cover_put(c: CatalogView, book: int, path: Seq<char>) -> CatalogView {
    let d = with_book(c, book, |b: BookView| BookView { cover_path: Some(path), ..b });
    CatalogView { covers: ref_added(d.covers, path), ..d }
}

/// The catalogue with a book's new cover: as it was, where that is the cover it has.
pub open spec fn cover_updated(c: CatalogView, book: int, path: Seq<char>) -> CatalogView {
    match cover_of(c, book) {
        Some(p) => if p != path {
            ref_released(cover_put(c, book, path), p)
        } else {
            c
        },
        None => cover_put(c, book, path),
    }
}

/// The old cover of a book that gets a new one, where nothing refers to it any more.
pub open spec fn cover_update_orphan(c: CatalogView, book: int, path: Seq<char>) -> Option<
    Seq<char>,
> {
    match cover_of(c, book) {
        Some(p) => if p != path && is_orphan(cover_put(c, book, path), p) {
            Some(p)
        } else {
            None
        },
        None => None,
    }
}

// ---- what is listed, and what changes ----

/// The sources of a book are listed all and once each, by the characters of their kind, then by
/// their places, then by their identifiers. `o` says where each stands in the catalogue.
pub proof fn sources_are_listed_by_place(v: Seq<SourceView>, book: int) -> (o: Seq<int>)
    ensures
        o.len() == sources_of(v, book).len(),
        o.no_duplicates(),
        forall|i: int|
            0 <= i < o.len() ==> 0 <= #[trigger] o[i] < v.len() && sources_of(v, book)[i] == v[o[i]]
                && v[o[i]].book_id == book,
        forall|p: int| 0 <= p < v.len() && (#[trigger] v[p]).book_id == book ==> o.contains(p),
        forall|i: int, j: int|
            0 <= i < j < o.len() ==> {
                let x = v[#[trigger] o[i]];
                let y = v[#[trigger] o[j]];
                ||| x.kind != y.kind && text_le(x.kind, y.kind)
                ||| x.kind == y.kind && x.position < y.position
                ||| x.kind == y.kind && x.position == y.position && x.id <= y.id
            },
{
    let f = |s: SourceView| s.book_id == book;
    let key = |s: SourceView| source_key(s);
    let o = chosen_places(v, f, key);
    assert forall|p: int| 0 <= p < v.len() && (#[trigger] v[p]).book_id == book implies o.contains(
        p,
    ) by {
        assert(f(v[p]));
    }
    o
}

/// Putting sources into an order gives each the place of its reference in the order; sources of
/// other books, of other kinds and without a place in the order stay where they were, and
/// nothing but the place of a source changes.
pub proof fn sources_get_the_places_of_their_references(
    c: CatalogView,
    book: int,
    kind: Seq<char>,
    refs: Seq<Seq<char>>,
    k: int,
    r: int,
)
    requires
        0 <= k < c.sources.len(),
        refs.len() <= i64::MAX,
    ensures
        ({
            let e = reordered_first(c, book, kind, refs, refs.len());
            let s = c.sources[k];
            &&& e.sources.len() == c.sources.len()
            &&& e.sources[k] == (SourceView { position: e.sources[k].position, ..s })
            &&& s.book_id != book || s.kind != kind || !refs.contains(s.ref_key)
                ==> e.sources[k].position == s.position
            &&& s.book_id == book && s.kind == kind && 0 <= r < refs.len() && refs[r] == s.ref_key
                && (forall|j: int| r < j < refs.len() ==> #[trigger] refs[j] != s.ref_key)
                ==> e.sources[k].position == r
            &&& e.books == c.books && e.comments == c.comments && e.covers == c.covers
        }),
{
    places_so_far(c, book, kind, refs, k, r, refs.len());
    if !refs.contains(c.sources[k].ref_key) {
        assert forall|j: int| 0 <= j < refs.len() implies #[trigger] refs[j]
            != c.sources[k].ref_key by {}
    }
}

proof fn places_so_far(
    c: CatalogView,
    book: int,
    kind: Seq<char>,
    refs: Seq<Seq<char>>,
    k: int,
    r: int,
    n: nat,
)
    requires
        0 <= k < c.sources.len(),
        refs.len() <= i64::MAX,
        n <= refs.len(),
    ensures
        ({
            let e = reordered_first(c, book, kind, refs, n);
            let s = c.sources[k];
            &&& e.sources.len() == c.sources.len()
            &&& e.sources[k] == (SourceView { position: e.sources[k].position, ..s })
            &&& s.book_id != book || s.kind != kind || (forall|j: int|
                0 <= j < n ==> #[trigger] refs[j] != s.ref_key) ==> e.sources[k].position
                == s.position
            &&& s.book_id == book && s.kind == kind && 0 <= r < n && refs[r] == s.ref_key && (
            forall|j: int| r < j < n ==> #[trigger] refs[j] != s.ref_key) ==> e.sources[k].position
                == r
            &&& e.books == c.books && e.comments == c.comments && e.covers == c.covers
        }),
    decreases n,
{
    if n > 0 {
        places_so_far(c, book, kind, refs, k, r, (n - 1) as nat);
        let s = c.sources[k];
        if refs[n - 1] == s.ref_key {
            assert(((n - 1) as i64) as int == n - 1);
        }
    }
}

/// Taking a source out takes out that source and the comments that were fetched from it, and
/// nothing else: other sources stay, and so do the reader's own comments and those from other
/// sources.
pub proof fn a_deleted_source_takes_its_comments_along(
    c: CatalogView,
    book: int,
    kind: Seq<char>,
    ref_key: Seq<char>,
    s: SourceView,
    x: CommentView,
)
    requires
        c.sources.contains(s),
        c.comments.contains(x),
    ensures
        ({
            let e = source_deleted(c, book, kind, ref_key);
            &&& e.sources.contains(s) <==> !(s.book_id == book && s.kind == kind && s.ref_key
                == ref_key)
            &&& e.comments.contains(x) <==> !(x.book_id == book && x.is_mine == 0 && x.source_ref
                == Some(ref_key))
            &&& e.books == c.books
        }),
{
    let d = source_taken(c, book, kind, ref_key);
    let paths = deleted_paths(c, book, kind, ref_key);
    release_keeps_rows(d, paths, paths.len());
    let f = |s: SourceView| !is_source(s, book, kind, ref_key);
    assert(d.sources == c.sources.filter(f)) by {
        let gone = |s: SourceView| is_source(s, book, kind, ref_key);
        assert((|s: SourceView| !gone(s)) =~= f);
    }
    kept_by_filter(c.sources, f, s);
    let g = |x: CommentView|
        !(x.book_id == book && x.is_mine == 0 && x.source_ref == Some(ref_key));
    kept_by_filter(c.comments, g, x);
}

proof fn kept_by_filter<A>(s: Seq<A>, f: spec_fn(A) -> bool, a: A)
    requires
        s.contains(a),
    ensures
        s.filter(f).contains(a) <==> f(a),
{
    let i = choose|i: int| 0 <= i < s.len() && s[i] == a;
    if f(a) {
        s.lemma_filter_contains(f, i);
    }
    if s.filter(f).contains(a) {
        let k = choose|k: int| 0 <= k < s.filter(f).len() && s.filter(f)[k] == a;
        s.lemma_filter_pred(f, k);
    }
}

/// Taking a book out takes out the book, its comments and its sources, and nothing else.
pub proof fn a_deleted_book_takes_its_rows_along(
    c: CatalogView,
    book: int,
    b: BookView,
    x: CommentView,
    s: SourceView,
)
    requires
        c.books.contains(b),
        c.comments.contains(x),
        c.sources.contains(s),
    ensures
        rows_deleted(c, book).books.contains(b) <==> b.id != book,
        rows_deleted(c, book).comments.contains(x) <==> x.book_id != book,
        rows_deleted(c, book).sources.contains(s) <==> s.book_id != book,
{
    kept_by_filter(c.books, |b: BookView| b.id != book, b);
    kept_by_filter(c.comments, |x: CommentView| x.book_id != book, x);
    kept_by_filter(c.sources, |s: SourceView| s.book_id != book, s);
}

/// A source that is fetched anew takes over the cover, the series and the editions that were
/// found, and of the title, the author, the address, the summary and the tags what was found;
/// what was not found of these stays. No other source changes.
pub proof fn a_refreshed_source_keeps_what_was_not_found(c: CatalogView, m: SourceView, k: int)
    requires
        0 <= k < c.sources.len(),
    ensures
        ({
            let e = source_refreshed(c, m);
            let s = c.sources[k];
            let z = e.sources[k];
            &&& e.sources.len() == c.sources.len()
            &&& e.books == c.books && e.comments == c.comments
            &&& !(s.book_id == m.book_id && s.kind == m.kind && s.ref_key == m.ref_key) ==> z == s
            &&& s.book_id == m.book_id && s.kind == m.kind && s.ref_key == m.ref_key ==> {
                &&& z.id == s.id && z.position == s.position
                &&& z.book_id == s.book_id && z.kind == s.kind && z.ref_key == s.ref_key
                &&& z.title == (if m.title is Some { m.title } else { s.title })
                &&& z.author == (if m.author is Some { m.author } else { s.author })
                &&& z.cover_url == (if m.cover_url is Some { m.cover_url } else { s.cover_url })
                &&& z.summary == (if m.summary is Some { m.summary } else { s.summary })
                &&& z.tags == (if m.tags is Some { m.tags } else { s.tags })
                &&& z.cover_path == m.cover_path
                &&& z.series_name == m.series_name
                &&& z.series_order == m.series_order
                &&& z.editions == m.editions
            }
        }),
{
    let rows = rows_refreshed(c, m);
    let was = old_cover(c, m);
    let moved = cover_moved(rows, was, m.cover_path);
    release_keeps_rows(rows, opt_list(was), opt_list(was).len());
    let had = edition_paths(old_editions(c, m));
    release_keeps_rows(moved, had, had.len());
}

/// A book that gets a new cover has it; every other book stays as it is, and so do comments and
/// sources.
pub proof fn a_new_cover_is_the_cover_of_the_book(
    c: CatalogView,
    book: int,
    path: Seq<char>,
    k: int,
)
    requires
        c.wf(),
        0 <= k < c.books.len(),
    ensures
        ({
            let e = cover_updated(c, book, path);
            &&& e.books.len() == c.books.len()
            &&& c.books[k].id == book ==> e.books[k] == (BookView {
                cover_path: Some(path),
                ..c.books[k]
            })
            &&& c.books[k].id != book ==> e.books[k] == c.books[k]
            &&& e.comments == c.comments && e.sources == c.sources
            &&& c.books[k].id == book && c.books[k].cover_path != Some(path)
                ==> e.covers.contains_key(path)
        }),
{
    if c.books[k].id == book {
        let i = choose|i: int| 0 <= i < c.books.len() && (#[trigger] c.books[i]).id == book;
        assert(c.books[k].id == book);
        if i < k {
            assert(c.books[i].id < c.books[k].id);
        } else if k < i {
            assert(c.books[k].id < c.books[i].id);
        }
        assert(book_of(c.books, book) == Some(c.books[k]));
    }
}

/// The lists of references in a book are those of its sources, entries and pages apart, in the
/// order in which they are listed.
pub proof fn a_book_lists_its_sources(c: CatalogView, book: int, k: int)
    requires
        0 <= k < c.books.len(),
    ensures
        ({
            let e = columns_synced(c, book);
            let of = |kind: Seq<char>|
                sources_of(c.sources, book).filter(|s: SourceView| s.kind == kind).map_values(
                    |s: SourceView| s.ref_key,
                );
            &&& c.books[k].id == book ==> e.books[k] == (BookView {
                clasp_ids: Some(json_of_strings(of("clasp"@))),
                douban_urls: Some(json_of_strings(of("douban"@))),
                ..c.books[k]
            })
            &&& c.books[k].id != book ==> e.books[k] == c.books[k]
            &&& e.books.len() == c.books.len()
        }),
{
}

/// Fetching a source anew uses up no identifier of a comment.
pub proof fn refreshing_adds_no_comment(c: CatalogView, m: SourceView)
    ensures
        source_refreshed(c, m).last_comment == c.last_comment,
        source_refreshed(c, m).comments == c.comments,
{
    let rows = rows_refreshed(c, m);
    let was = old_cover(c, m);
    let moved = cover_moved(rows, was, m.cover_path);
    release_keeps_rows(rows, opt_list(was), opt_list(was).len());
    let had = edition_paths(old_editions(c, m));
    release_keeps_rows(moved, had, had.len());
}

proof fn comments_left(c: CatalogView, book: int, refs: Seq<Seq<char>>, n: nat, x: CommentView)
    requires
        n <= refs.len(),
        c.comments.contains(x),
    ensures
        ({
            let e = comments_cleared_first(c, book, refs, n);
            &&& e.comments.contains(x) <==> !(x.book_id == book && x.is_mine == 0 && exists|i: int|
                0 <= i < n && x.source_ref == Some(#[trigger] refs[i]))
            &&& e.sources == c.sources && e.books == c.books
        }),
    decreases n,
{
    if n > 0 {
        let k = n - 1;
        comments_left(c, book, refs, k as nat, x);
        let d = comments_cleared_first(c, book, refs, k as nat);
        let f = |y: CommentView|
            !(y.book_id == book && y.is_mine == 0 && y.source_ref == Some(refs[k]));
        let e = comments_cleared_first(c, book, refs, n);
        assert(e.comments == d.comments.filter(f));
        if d.comments.contains(x) {
            kept_by_filter(d.comments, f, x);
        } else {
            filter_from(d.comments, f);
            if e.comments.contains(x) {
                let i = choose|i: int| 0 <= i < e.comments.len() && e.comments[i] == x;
                assert(d.comments.contains(e.comments[i]));
            }
        }
        if x.source_ref == Some(refs[k]) {
            assert(exists|i: int| 0 <= i < n && x.source_ref == Some(#[trigger] refs[i]));
        }
    }
}

/// Taking out the sources of a kind takes out those of the book and the comments that were
/// fetched from them, and nothing else: sources of the other kind and of other books stay, and so
/// do the reader's own comments.
pub proof fn a_cleared_kind_takes_its_comments_along(
    c: CatalogView,
    book: int,
    kind: Seq<char>,
    s: SourceView,
    x: CommentView,
)
    requires
        c.sources.contains(s),
        c.comments.contains(x),
    ensures
        ({
            let e = sources_cleared(c, book, kind);
            let refs = sources_of(c.sources, book).filter(
                |y: SourceView| y.kind == kind,
            ).map_values(|y: SourceView| y.ref_key);
            &&& e.sources.contains(s) <==> !(s.book_id == book && s.kind == kind)
            &&& e.comments.contains(x) <==> !(x.book_id == book && x.is_mine == 0 && exists|i: int|
                0 <= i < refs.len() && x.source_ref == Some(#[trigger] refs[i]))
            &&& e.books == c.books
        }),
{
    let refs = refs_by_kind(c, book, kind);
    let d = kind_taken(c, book, kind);
    let paths = kind_paths(c, book, kind);
    release_keeps_rows(d, paths, paths.len());
    let r = released_all(d, paths);
    assert(r.comments == c.comments);
    comments_left(r, book, refs, refs.len(), x);
    let f = |y: SourceView| !(y.book_id == book && y.kind == kind);
    assert(d.sources == c.sources.filter(f)) by {
        let gone = |y: SourceView| y.book_id == book && y.kind == kind;
        assert((|y: SourceView| !gone(y)) =~= f);
    }
    kept_by_filter(c.sources, f, s);
}

} // verus!
