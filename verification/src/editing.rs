//! Changing a book: its sources, and what it takes from them.
use vstd::prelude::*;
use vstd::string::*;

use crate::db::{
    book_of, coalesce, with_book, BookView, Catalog, CatalogView, DbError, SourceRec, SourceRow,
    SourceView,
};
use crate::ingestion::{
    inherit_series, inherited, pair_views, pending_views, series_is_inherited_where_all_agree,
    PendingSource, PendingView,
};
use crate::json::{json_of_strings, read_strings, strings_of_json, write_strings};
use crate::paths::{slashes_are_stripped, strip_slashes, stripped};
use crate::records::{
    commented, comments_are_recorded, comments_keep_books, has_recorded_comment,
    is_recorded_comment,
};
use crate::sources::{columns_synced, source_inserted, source_is, source_refreshed, sources_of};
use crate::spider::{
    add_all_new, add_new, remarks, union_holds_both, union_is_distinct, with_all_new, with_new,
    RemarkView,
};
use crate::text::{
    blank, chars_of, clone_opt, clone_strings, contains, find, find_chars, find_from_is_first,
    has_char, has_part, is_blank, join, occurs_at, opt_str, same, string_of_range, strs, strs_push,
    trim, trimmed,
};
use crate::utils::{join_tags, split_tags, tags_in};
use crate::seqs::{filter_none, filter_places, filter_step};

verus! {

// ---- references that the user gave ----

/// Where the address of an entry's page leads.
pub const ENTRY_PAGES: &'static str = "claspclub.com/books/";

/// Whether a character ends the id in an address.
pub open spec fn ends_id(c: char) -> bool {
    c == '/' || c == '?' || c == '#'
}

/// The characters from `i` on up to the first that ends an id.
pub open spec fn id_from(s: Seq<char>, i: int, k: int) -> Seq<char>
    decreases s.len() - k,
{
    if k < 0 || k >= s.len() || ends_id(s[k]) {
        s.subrange(i, k)
    } else {
        id_from(s, i, k + 1)
    }
}

/// The entry that a text names: by the address of its page, or by its id.
pub open spec fn entry_named(text: Seq<char>) -> Option<Seq<char>> {
    let s = trim(text);
    match find(s, ENTRY_PAGES@) {
        Some(p) => {
            let i = p + ENTRY_PAGES@.len();
            let id = id_from(s, i, i);
            if id.len() > 0 {
                Some(id)
            } else {
                None
            }
        },
        None => {
            let id = strip_slashes(s);
            if id.len() > 0 && !id.contains('/') {
                Some(id)
            } else {
                None
            }
        },
    }
}

/// The entry that a text names: by the address of its page, or by its id.
pub fn clasp_id_from_input(text: &str) -> (r: Option<String>)
    ensures
        opt_str(r) == entry_named(text@),
{
    let s = trimmed(text);
    let v = chars_of(&s);
    let page = chars_of(ENTRY_PAGES);
    match find_chars(&v, &page, 0) {
        Some(p) => {
            proof {
                find_from_is_first(v@, page@, 0);
                assert(occurs_at(v@, page@, p as int));
                assert(p + page@.len() <= v.len());
            }
            let i: usize = p + page.len();
            let mut k: usize = i;
            while k < v.len() && !(v[k] == '/' || v[k] == '?' || v[k] == '#')
                invariant
                    i <= k <= v@.len(),
                    v@ == s@,
                    id_from(v@, i as int, i as int) == id_from(v@, i as int, k as int),
                decreases v@.len() - k,
            {
                k += 1;
            }
            if k > i {
                Some(string_of_range(&v, i, k))
            } else {
                None
            }
        },
        None => {
            let id = stripped(&s);
            if !id.as_str().is_empty() && !has_char(&id, '/') {
                Some(id)
            } else {
                None
            }
        },
    }
}

/// The entries that the texts name, each once.
pub open spec fn entries_named(items: Seq<Seq<char>>) -> Seq<Seq<char>>
    decreases items.len(),
{
    if items.len() == 0 {
        Seq::empty()
    } else {
        let before = entries_named(items.drop_last());
        match entry_named(items.last()) {
            Some(id) => with_new(before, id),
            None => before,
        }
    }
}

/// The entries that the texts name, each once; none is the error.
pub fn entries_in(items: &Vec<String>) -> (r: Result<Vec<String>, String>)
    ensures
        match r {
            Ok(v) => v@.len() > 0 && strs(v@) == entries_named(strs(items@)),
            Err(e) => entries_named(strs(items@)).len() == 0 && e@ == "未提供有效的 claspclub 条目"@,
        },
{
    let ghost all = strs(items@);
    let mut out: Vec<String> = Vec::new();
    let mut i: usize = 0;
    assert(all.take(0) =~= Seq::<Seq<char>>::empty());
    assert(strs(out@) =~= entries_named(all.take(0)));
    while i < items.len()
        invariant
            i <= items@.len(),
            all == strs(items@),
            strs(out@) == entries_named(all.take(i as int)),
        decreases items@.len() - i,
    {
        assert(all.take(i + 1).drop_last() =~= all.take(i as int));
        assert(all.take(i + 1).last() == items@[i as int]@);
        match clasp_id_from_input(&items[i]) {
            Some(id) => {
                add_new(&mut out, &id);
            },
            None => {},
        }
        i += 1;
    }
    assert(all.take(items@.len() as int) =~= all);
    assert(strs(out@).len() == out@.len());
    if out.len() == 0 {
        Err("未提供有效的 claspclub 条目".to_owned())
    } else {
        Ok(out)
    }
}

/// Where the first line stands that is neither blank nor the address of a book's page.
pub open spec fn bad_page(items: Seq<Seq<char>>, i: int) -> Option<int>
    decreases items.len() - i,
{
    if i < 0 || i >= items.len() {
        None
    } else if !is_blank(items[i]) && !has_part(trim(items[i]), "book.douban.com/subject/"@) {
        Some(i)
    } else {
        bad_page(items, i + 1)
    }
}

/// The addresses in the lines, each once.
pub open spec fn pages_named(items: Seq<Seq<char>>) -> Seq<Seq<char>>
    decreases items.len(),
{
    if items.len() == 0 {
        Seq::empty()
    } else {
        let before = pages_named(items.drop_last());
        if is_blank(items.last()) {
            before
        } else {
            with_new(before, trim(items.last()))
        }
    }
}

/// The addresses in the lines, each once; a line that is no address of a book's page is the
/// error, and so is it where there is no line.
pub fn pages_in(items: &Vec<String>) -> (r: Result<Vec<String>, String>)
    ensures
        match r {
            Ok(v) => {
                &&& bad_page(strs(items@), 0) is None
                &&& v@.len() > 0
                &&& strs(v@) == pages_named(strs(items@))
            },
            Err(e) => match bad_page(strs(items@), 0) {
                Some(i) => e@ == "不是有效的豆瓣书籍链接: "@ + trim(items@[i]@),
                None => pages_named(strs(items@)).len() == 0 && e@ == "未提供豆瓣链接"@,
            },
        },
{
    let ghost all = strs(items@);
    let mut out: Vec<String> = Vec::new();
    let mut i: usize = 0;
    assert(all.take(0) =~= Seq::<Seq<char>>::empty());
    assert(strs(out@) =~= pages_named(all.take(0)));
    while i < items.len()
        invariant
            i <= items@.len(),
            all == strs(items@),
            bad_page(all, 0) == bad_page(all, i as int),
            strs(out@) == pages_named(all.take(i as int)),
        decreases items@.len() - i,
    {
        assert(all[i as int] == items@[i as int]@);
        assert(all.take(i + 1).drop_last() =~= all.take(i as int));
        assert(all.take(i + 1).last() == items@[i as int]@);
        if !blank(&items[i]) {
            let u = trimmed(&items[i]);
            if !contains(&u, "book.douban.com/subject/") {
                return Err("不是有效的豆瓣书籍链接: ".to_owned().concat(&u));
            }
            add_new(&mut out, &u);
        }
        i += 1;
    }
    assert(all.take(items@.len() as int) =~= all);
    assert(strs(out@).len() == out@.len());
    if out.len() == 0 {
        Err("未提供豆瓣链接".to_owned())
    } else {
        Ok(out)
    }
}

/// Whether a book has the source.
pub open spec fn holds_source(rows: Seq<SourceRow>, kind: Seq<char>, ref_key: Seq<char>) -> bool {
    exists|i: int|
        0 <= i < rows.len() && (#[trigger] rows[i]).kind@ == kind && rows[i].ref_key@ == ref_key
}

fn has_source(rows: &Vec<SourceRow>, kind: &str, ref_key: &str) -> (r: bool)
    ensures
        r == holds_source(rows@, kind@, ref_key@),
{
    let mut i: usize = 0;
    while i < rows.len()
        invariant
            i <= rows@.len(),
            forall|k: int|
                0 <= k < i ==> !((#[trigger] rows@[k]).kind@ == kind@ && rows@[k].ref_key@
                    == ref_key@),
        decreases rows@.len() - i,
    {
        if same(&rows[i].kind, kind) && same(&rows[i].ref_key, ref_key) {
            return true;
        }
        i += 1;
    }
    false
}

/// The references that are no source of the book yet.
pub open spec fn missing_refs(rows: Seq<SourceRow>, kind: Seq<char>, refs: Seq<Seq<char>>) -> Seq<
    Seq<char>,
> {
    refs.filter(|r: Seq<char>| !holds_source(rows, kind, r))
}

/// The references that are no source of the book yet; where there is none, the text that
/// says so.
pub fn refs_to_crawl(rows: &Vec<SourceRow>, kind: &str, refs: &Vec<String>) -> (r: Result<
    Vec<String>,
    String,
>)
    ensures
        match r {
            Ok(v) => v@.len() > 0 && strs(v@) == missing_refs(rows@, kind@, strs(refs@)),
            Err(e) => missing_refs(rows@, kind@, strs(refs@)).len() == 0 && e@ == (if kind@
                == "clasp"@ {
                "所选条目均已存在"@
            } else {
                "链接均已存在"@
            }),
        },
{
    let ghost all = strs(refs@);
    let ghost f = |r: Seq<char>| !holds_source(rows@, kind@, r);
    let mut out: Vec<String> = Vec::new();
    let mut i: usize = 0;
    proof {
        filter_none(all, f);
        assert(strs(out@) =~= all.take(0).filter(f));
    }
    while i < refs.len()
        invariant
            i <= refs@.len(),
            all == strs(refs@),
            f == (|r: Seq<char>| !holds_source(rows@, kind@, r)),
            strs(out@) == all.take(i as int).filter(f),
        decreases refs@.len() - i,
    {
        proof {
            filter_step(all, i as int, f);
            assert(all[i as int] == refs@[i as int]@);
        }
        if !has_source(rows, kind, &refs[i]) {
            let s = refs[i].as_str().to_owned();
            proof {
                strs_push(out@, s);
            }
            out.push(s);
        }
        i += 1;
    }
    assert(all.take(refs@.len() as int) =~= all);
    assert(strs(out@).len() == out@.len());
    if out.len() == 0 {
        if same(kind, "clasp") {
            Err("所选条目均已存在".to_owned())
        } else {
            Err("链接均已存在".to_owned())
        }
    } else {
        Ok(out)
    }
}

/// The pages of the review site that new entries lead to and the book does not have, each
/// once.
pub open spec fn new_pages(rows: Seq<SourceRow>, found: Seq<PendingSource>) -> Seq<Seq<char>>
    decreases found.len(),
{
    if found.len() == 0 {
        Seq::empty()
    } else {
        let before = new_pages(rows, found.drop_last());
        match found.last().douban_url {
            Some(u) => if holds_source(rows, "douban"@, u@) {
                before
            } else {
                with_new(before, u@)
            },
            None => before,
        }
    }
}

/// The pages of the review site that new entries lead to and the book does not have, each
/// once.
pub fn pages_to_crawl(rows: &Vec<SourceRow>, found: &Vec<PendingSource>) -> (r: Vec<String>)
    ensures
        strs(r@) == new_pages(rows@, found@),
{
    let mut out: Vec<String> = Vec::new();
    let mut i: usize = 0;
    assert(found@.take(0) =~= Seq::<PendingSource>::empty());
    assert(strs(out@) =~= new_pages(rows@, found@.take(0)));
    while i < found.len()
        invariant
            i <= found@.len(),
            strs(out@) == new_pages(rows@, found@.take(i as int)),
        decreases found@.len() - i,
    {
        assert(found@.take(i + 1).drop_last() =~= found@.take(i as int));
        assert(found@.take(i + 1).last() == found@[i as int]);
        match &found[i].douban_url {
            Some(u) => {
                if !has_source(rows, "douban", u) {
                    add_new(&mut out, u);
                }
            },
            None => {},
        }
        i += 1;
    }
    assert(found@.take(found@.len() as int) =~= found@);
    out
}

// ---- recording sources ----

/// What stands at a comment on a source of a kind.
pub open spec fn kind_label(kind: Seq<char>) -> Seq<char> {
    if kind == "clasp"@ {
        "claspclub"@
    } else {
        "豆瓣"@
    }
}

pub(crate) fn label_of(kind: &str) -> (r: String)
    ensures
        r@ == kind_label(kind@),
{
    if same(kind, "clasp") {
        "claspclub".to_owned()
    } else {
        "豆瓣".to_owned()
    }
}

/// A source that was found, as a row of the book.
pub open spec fn found_row(book: int, kind: Seq<char>, ref_key: Seq<char>, position: int, s: PendingView) -> SourceView {
    SourceView {
        id: 0,
        book_id: book,
        kind,
        ref_key,
        position,
        title: s.title,
        author: s.author,
        cover_url: s.cover_url,
        cover_path: s.cover_path,
        summary: s.summary,
        tags: match s.tags {
            Some(t) => Some(json_of_strings(t)),
            None => None,
        },
        series_name: match s.series {
            Some(p) => Some(p.0),
            None => None,
        },
        series_order: match s.series {
            Some(p) => p.1,
            None => None,
        },
        editions: s.editions,
    }
}

pub(crate) fn row_found(s: &PendingSource, kind: &str, ref_key: &str, position: i64, Ghost(book): Ghost<i64>) -> (r: SourceRow)
    ensures
        (SourceRec { id: 0, book_id: book, row: r })@ == found_row(
            book as int,
            kind@,
            ref_key@,
            position as int,
            s@,
        ),
{
    let tags = match &s.tags {
        Some(t) => Some(write_strings(t)),
        None => None,
    };
    let (series_name, series_order): (Option<String>, Option<i64>) = match &s.series {
        Some(p) => (Some(p.0.as_str().to_owned()), p.1),
        None => (None, None),
    };
    SourceRow {
        kind: kind.to_owned(),
        ref_key: ref_key.to_owned(),
        position,
        title: clone_opt(&s.title),
        author: clone_opt(&s.author),
        cover_url: clone_opt(&s.cover_url),
        cover_path: clone_opt(&s.cover_path),
        summary: clone_opt(&s.summary),
        tags,
        series_name,
        series_order,
        editions: clone_opt(&s.editions_json),
    }
}

/// The catalogue with more sources of a kind, from place `start` on, and their comments.
pub open spec fn sources_appended(
    c: CatalogView,
    book: int,
    kind: Seq<char>,
    sources: Seq<PendingView>,
    start: int,
) -> CatalogView
    decreases sources.len(),
{
    if sources.len() == 0 {
        c
    } else {
        let s = sources.last();
        commented(
            source_inserted(
                sources_appended(c, book, kind, sources.drop_last(), start),
                found_row(book, kind, s.ref_key, start + sources.len() - 1, s),
            ),
            book,
            s.comments,
            kind_label(kind),
            s.ref_key,
        )
    }
}

/// How many of the sources are of a kind.
pub open spec fn count_kind(rows: Seq<SourceView>, kind: Seq<char>) -> nat
    decreases rows.len(),
{
    if rows.len() == 0 {
        0
    } else {
        count_kind(rows.drop_last(), kind) + (if rows.last().kind == kind {
            1nat
        } else {
            0
        })
    }
}

/// The catalogue with more sources of a kind behind those that the book has.
pub open spec fn sources_added(
    c: CatalogView,
    book: int,
    kind: Seq<char>,
    sources: Seq<PendingView>,
) -> CatalogView {
    columns_synced(
        sources_appended(
            c,
            book,
            kind,
            sources,
            count_kind(sources_of(c.sources, book), kind) as int,
        ),
        book,
    )
}

proof fn comments_count_no_source(
    c: CatalogView,
    book: int,
    comments: Seq<RemarkView>,
    label: Seq<char>,
    ref_key: Seq<char>,
)
    ensures
        commented(c, book, comments, label, ref_key).last_source == c.last_source,
    decreases comments.len(),
{
    if comments.len() > 0 {
        comments_count_no_source(c, book, comments.drop_last(), label, ref_key);
    }
}

/// What a row of a list of sources shows.
pub proof fn row_shows(r: SourceRow, v: SourceView)
    requires
        source_is(r, v),
    ensures
        r.kind@ == v.kind,
        r.ref_key@ == v.ref_key,
        opt_str(r.cover_url) == v.cover_url,
        opt_str(r.summary) == v.summary,
        opt_str(r.tags) == v.tags,
        opt_str(r.series_name) == v.series_name,
        r.series_order == v.series_order,
{
    let w = (SourceRec { id: 0, book_id: 0, row: r })@;
    assert(w.kind == v.kind);
}

impl Catalog {
    fn count_sources(&self, book_id: i64, kind: &str) -> (r: usize)
        ensures
            r == count_kind(sources_of(self@.sources, book_id as int), kind@),
    {
        let rows = self.list_sources(book_id);
        let ghost all = sources_of(self@.sources, book_id as int);
        let _len: usize = rows.len();
        let mut n: usize = 0;
        let mut i: usize = 0;
        assert(all.take(0) =~= Seq::<SourceView>::empty());
        while i < rows.len()
            invariant
                n <= i <= rows@.len() <= usize::MAX,
                rows@.len() == all.len(),
                forall|k: int| 0 <= k < rows@.len() ==> source_is(#[trigger] rows@[k], all[k]),
                n == count_kind(all.take(i as int), kind@),
            decreases rows@.len() - i,
        {
            assert(all.take(i + 1).drop_last() =~= all.take(i as int));
            assert(all.take(i + 1).last() == all[i as int]);
            proof {
                row_shows(rows@[i as int], all[i as int]);
            }
            if same(&rows[i].kind, kind) {
                n += 1;
            }
            i += 1;
        }
        assert(all.take(rows@.len() as int) =~= all);
        n
    }

    /// Records more sources of a kind, with their comments, behind those that the book has.
    pub fn append_pending_sources(
        &mut self,
        book_id: i64,
        kind: &str,
        items: &Vec<PendingSource>,
    ) -> (r: Result<(), DbError>)
        requires
            old(self).wf(),
        ensures
            final(self).wf(),
            match r {
                Ok(_) => final(self)@ == sources_added(
                    old(self)@,
                    book_id as int,
                    kind@,
                    pending_views(items@),
                ),
                Err(e) => e == DbError::Full && !sources_fit(
                    old(self)@,
                    book_id as int,
                    kind@,
                    items@.len(),
                ),
            },
            sources_fit(old(self)@, book_id as int, kind@, items@.len()) ==> r is Ok,
    {
        let start: usize = self.count_sources(book_id, kind);
        let n: usize = items.len();
        if start as u128 + n as u128 > i64::MAX as u128 {
            return Err(DbError::Full);
        }
        let ghost c = self@;
        let ghost all = pending_views(items@);
        let label = label_of(kind);
        let mut i: usize = 0;
        assert(all.take(0) =~= Seq::<PendingView>::empty());
        while i < n
            invariant
                i <= n,
                n == items@.len(),
                start + n <= i64::MAX,
                all == pending_views(items@),
                label@ == kind_label(kind@),
                self.wf(),
                c == old(self)@,
                start == count_kind(sources_of(c.sources, book_id as int), kind@),
                self@ == sources_appended(
                    c,
                    book_id as int,
                    kind@,
                    all.take(i as int),
                    start as int,
                ),
                self@.last_source == c.last_source + i,
            decreases n - i,
        {
            assert(all.take(i + 1).drop_last() =~= all.take(i as int));
            assert(all.take(i + 1).last() == items@[i as int]@);
            let position: i64 = start as i64 + i as i64;
            let row = row_found(&items[i], kind, &items[i].ref_key, position, Ghost(book_id));
            match self.insert_source(book_id, row) {
                Ok(_) => {},
                Err(e) => {
                    return Err(e);
                },
            }
            let ghost mid = self@;
            self.record_comments(book_id, &items[i].comments, &label, &items[i].ref_key);
            proof {
                comments_count_no_source(
                    mid,
                    book_id as int,
                    remarks(items@[i as int].comments@),
                    label@,
                    items@[i as int].ref_key@,
                );
            }
            i += 1;
        }
        assert(all.take(n as int) =~= all);
        self.sync_book_source_columns(book_id);
        Ok(())
    }
}

/// Whether there is room for `n` more sources of a book.
pub open spec fn sources_fit(c: CatalogView, book: int, kind: Seq<char>, n: nat) -> bool {
    &&& count_kind(sources_of(c.sources, book), kind) + n <= i64::MAX
    &&& c.last_source + n <= i64::MAX || n == 0
}

// ---- tags and series from sources ----

/// The tags that a source has.
pub open spec fn stored_tags(s: SourceView) -> Seq<Seq<char>> {
    match s.tags {
        Some(j) => match strings_of_json(j) {
            Some(l) => l,
            None => Seq::empty(),
        },
        None => Seq::empty(),
    }
}

fn tags_stored(tags: &Option<String>) -> (r: Vec<String>)
    ensures
        strs(r@) == (match opt_str(*tags) {
            Some(j) => match strings_of_json(j) {
                Some(l) => l,
                None => Seq::empty(),
            },
            None => Seq::empty(),
        }),
{
    let none: Vec<String> = Vec::new();
    assert(strs(none@) =~= Seq::<Seq<char>>::empty());
    match tags {
        Some(j) => match read_strings(j) {
            Some(l) => l,
            None => none,
        },
        None => none,
    }
}

/// The tags of the entries among the sources, each once.
pub open spec fn source_tags(rows: Seq<SourceView>) -> Seq<Seq<char>>
    decreases rows.len(),
{
    if rows.len() == 0 {
        Seq::empty()
    } else {
        let before = source_tags(rows.drop_last());
        if rows.last().kind == "clasp"@ {
            with_all_new(before, stored_tags(rows.last()))
        } else {
            before
        }
    }
}

/// The entries among the sources that have no tags.
pub open spec fn untagged(rows: Seq<SourceView>) -> Seq<Seq<char>>
    decreases rows.len(),
{
    if rows.len() == 0 {
        Seq::empty()
    } else {
        let before = untagged(rows.drop_last());
        if rows.last().kind == "clasp"@ && stored_tags(rows.last()).len() == 0 {
            before.push(rows.last().ref_key)
        } else {
            before
        }
    }
}

/// The series that an entry among the sources names; a blank one counts only where it is
/// asked for.
pub open spec fn stored_series(s: SourceView, blank_too: bool) -> Option<(Seq<char>, Option<i64>)> {
    match s.series_name {
        Some(n) => if s.kind == "clasp"@ && (blank_too || !is_blank(n)) {
            Some((n, s.series_order))
        } else {
            None
        },
        None => None,
    }
}

/// The series that the entries among the sources name.
pub open spec fn series_pairs(rows: Seq<SourceView>, blank_too: bool) -> Seq<
    (Seq<char>, Option<i64>),
>
    decreases rows.len(),
{
    if rows.len() == 0 {
        Seq::empty()
    } else {
        let before = series_pairs(rows.drop_last(), blank_too);
        match stored_series(rows.last(), blank_too) {
            Some(p) => before.push(p),
            None => before,
        }
    }
}

/// The entries among the sources that name no series.
pub open spec fn unserialised(rows: Seq<SourceView>) -> Seq<Seq<char>>
    decreases rows.len(),
{
    if rows.len() == 0 {
        Seq::empty()
    } else {
        let before = unserialised(rows.drop_last());
        if rows.last().kind == "clasp"@ && stored_series(rows.last(), false) is None {
            before.push(rows.last().ref_key)
        } else {
            before
        }
    }
}

/// The tags of a book.
pub open spec fn book_tags(c: CatalogView, book: int) -> Seq<Seq<char>> {
    match book_of(c.books, book) {
        Some(b) => tags_in(coalesce(b.tags, ""@)),
        None => Seq::empty(),
    }
}

/// The tags of the sources that were found.
pub open spec fn found_tags(found: Seq<PendingView>) -> Seq<Seq<char>>
    decreases found.len(),
{
    if found.len() == 0 {
        Seq::empty()
    } else {
        let before = found_tags(found.drop_last());
        match found.last().tags {
            Some(t) => before + t,
            None => before,
        }
    }
}

/// The catalogue with the tags of a book.
pub open spec fn tags_set(c: CatalogView, book: int, tags: Seq<Seq<char>>) -> CatalogView {
    let text = join(tags, ", "@);
    with_book(c, book, |b: BookView| BookView { tags: Some(text), ..b })
}

/// The catalogue with the series of a book.
pub open spec fn series_set(c: CatalogView, book: int, name: Seq<char>, order: Option<i64>) -> CatalogView {
    with_book(
        c,
        book,
        |b: BookView| BookView { series_name: Some(name), series_order: order, ..b },
    )
}

/// The catalogue with the tags of new sources among those of the book, where there are any.
pub open spec fn tags_taken(
    c: CatalogView,
    book: int,
    new: Seq<Seq<char>>,
    fixed: Seq<Seq<char>>,
) -> CatalogView {
    if new.len() == 0 {
        c
    } else {
        tags_set(c, book, with_all_new(with_all_new(book_tags(c, book), new), fixed))
    }
}

/// The catalogue with the series of a book as its sources agree on it, where they do.
pub open spec fn series_taken(c: CatalogView, book: int) -> CatalogView {
    match inherited(series_pairs(sources_of(c.sources, book), true)) {
        Some(p) => series_set(c, book, p.0, p.1),
        None => c,
    }
}

/// The catalogue with new entries as sources of a book, which takes their tags and series.
pub open spec fn entries_added(
    c: CatalogView,
    book: int,
    found: Seq<PendingView>,
    fixed: Seq<Seq<char>>,
) -> CatalogView {
    series_taken(
        tags_taken(sources_added(c, book, "clasp"@, found), book, found_tags(found), fixed),
        book,
    )
}

fn tags_found(found: &Vec<PendingSource>) -> (r: Vec<String>)
    ensures
        strs(r@) == found_tags(pending_views(found@)),
{
    let ghost all = pending_views(found@);
    let mut out: Vec<String> = Vec::new();
    let mut i: usize = 0;
    assert(all.take(0) =~= Seq::<PendingView>::empty());
    assert(strs(out@) =~= found_tags(all.take(0)));
    while i < found.len()
        invariant
            i <= found@.len(),
            all == pending_views(found@),
            strs(out@) == found_tags(all.take(i as int)),
        decreases found@.len() - i,
    {
        assert(all.take(i + 1).drop_last() =~= all.take(i as int));
        assert(all.take(i + 1).last() == found@[i as int]@);
        match &found[i].tags {
            Some(t) => {
                let ghost a = out@;
                let mut more = clone_strings(t);
                let ghost b = more@;
                out.append(&mut more);
                assert(strs(a + b) =~= strs(a) + strs(b));
            },
            None => {},
        }
        i += 1;
    }
    assert(all.take(found@.len() as int) =~= all);
    out
}

impl Catalog {
    fn pairs_of(&self, book_id: i64, blank_too: bool) -> (r: Vec<(String, Option<i64>)>)
        ensures
            pair_views(r@) == series_pairs(sources_of(self@.sources, book_id as int), blank_too),
    {
        let rows = self.list_sources(book_id);
        let ghost all = sources_of(self@.sources, book_id as int);
        let mut out: Vec<(String, Option<i64>)> = Vec::new();
        let mut i: usize = 0;
        assert(all.take(0) =~= Seq::<SourceView>::empty());
        assert(pair_views(out@) =~= series_pairs(all.take(0), blank_too));
        while i < rows.len()
            invariant
                i <= rows@.len(),
                rows@.len() == all.len(),
                forall|k: int| 0 <= k < rows@.len() ==> source_is(#[trigger] rows@[k], all[k]),
                pair_views(out@) == series_pairs(all.take(i as int), blank_too),
            decreases rows@.len() - i,
        {
            assert(all.take(i + 1).drop_last() =~= all.take(i as int));
            assert(all.take(i + 1).last() == all[i as int]);
            proof {
                row_shows(rows@[i as int], all[i as int]);
            }
            match &rows[i].series_name {
                Some(n) => {
                    if same(&rows[i].kind, "clasp") && (blank_too || !blank(n)) {
                        let ghost was = out@;
                        let p: (String, Option<i64>) = (n.as_str().to_owned(), rows[i].series_order);
                        out.push(p);
                        assert(pair_views(out@) =~= pair_views(was).push((p.0@, p.1)));
                    }
                },
                None => {},
            }
            i += 1;
        }
        assert(all.take(rows@.len() as int) =~= all);
        out
    }

    /// Records new entries as sources of a book, which takes their tags and, where all its
    /// entries agree on one, their series.
    pub fn record_clasp_sources(
        &mut self,
        book_id: i64,
        found: &Vec<PendingSource>,
        fixed: &Vec<String>,
    ) -> (r: Result<(), DbError>)
        requires
            old(self).wf(),
        ensures
            final(self).wf(),
            match r {
                Ok(_) => final(self)@ == entries_added(
                    old(self)@,
                    book_id as int,
                    pending_views(found@),
                    strs(fixed@),
                ),
                Err(e) => e == DbError::Full && !sources_fit(
                    old(self)@,
                    book_id as int,
                    "clasp"@,
                    found@.len(),
                ),
            },
            sources_fit(old(self)@, book_id as int, "clasp"@, found@.len()) ==> r is Ok,
    {
        match self.append_pending_sources(book_id, "clasp", found) {
            Ok(_) => {},
            Err(e) => {
                return Err(e);
            },
        }
        let new = tags_found(found);
        assert(strs(new@).len() == new@.len());
        if new.len() > 0 {
            let mut tags = match self.get_book_detail(book_id) {
                Some(d) => split_tags(&d.tags),
                None => Vec::new(),
            };
            assert(strs(tags@) =~= book_tags(self@, book_id as int));
            add_all_new(&mut tags, &new);
            add_all_new(&mut tags, fixed);
            self.set_book_tags(book_id, &join_tags(&tags));
        }
        let pairs = self.pairs_of(book_id, true);
        match inherit_series(&pairs) {
            Some(p) => {
                self.set_book_series(book_id, Some(p.0.as_str()), p.1);
            },
            None => {},
        }
        Ok(())
    }

    /// The entries among a book's sources whose tags are still to be fetched.
    pub fn sources_without_tags(&self, book_id: i64) -> (r: Vec<String>)
        ensures
            strs(r@) == untagged(sources_of(self@.sources, book_id as int)),
    {
        let rows = self.list_sources(book_id);
        let ghost all = sources_of(self@.sources, book_id as int);
        let mut out: Vec<String> = Vec::new();
        let mut i: usize = 0;
        assert(all.take(0) =~= Seq::<SourceView>::empty());
        assert(strs(out@) =~= untagged(all.take(0)));
        while i < rows.len()
            invariant
                i <= rows@.len(),
                rows@.len() == all.len(),
                forall|k: int| 0 <= k < rows@.len() ==> source_is(#[trigger] rows@[k], all[k]),
                strs(out@) == untagged(all.take(i as int)),
            decreases rows@.len() - i,
        {
            assert(all.take(i + 1).drop_last() =~= all.take(i as int));
            assert(all.take(i + 1).last() == all[i as int]);
            proof {
                row_shows(rows@[i as int], all[i as int]);
            }
            let stored = tags_stored(&rows[i].tags);
            assert(strs(stored@).len() == stored@.len());
            if same(&rows[i].kind, "clasp") && stored.len() == 0 {
                let s = rows[i].ref_key.as_str().to_owned();
                proof {
                    strs_push(out@, s);
                }
                out.push(s);
            }
            i += 1;
        }
        assert(all.take(rows@.len() as int) =~= all);
        out
    }

    /// Keeps the tags and the series that were fetched for an entry.
    pub fn fill_source_tags(
        &mut self,
        book_id: i64,
        ref_key: &str,
        tags: &Vec<String>,
        series: &Option<(String, Option<i64>)>,
    )
        requires
            old(self).wf(),
        ensures
            final(self).wf(),
            final(self)@ == source_refreshed(
                old(self)@,
                tags_row(book_id as int, ref_key@, strs(tags@), *series),
            ),
    {
        let (series_name, series_order): (Option<String>, Option<i64>) = match series {
            Some(p) => (Some(p.0.as_str().to_owned()), p.1),
            None => (None, None),
        };
        let row = SourceRow {
            kind: "clasp".to_owned(),
            ref_key: ref_key.to_owned(),
            position: 0,
            title: None,
            author: None,
            cover_url: None,
            cover_path: None,
            summary: None,
            tags: Some(write_strings(tags)),
            series_name,
            series_order,
            editions: None,
        };
        proof {
            assert((SourceRec { id: 0, book_id, row })@ == tags_row(
                book_id as int,
                ref_key@,
                strs(tags@),
                *series,
            ));
        }
        let _ = self.update_source_meta(book_id, &row);
    }

    /// Gives a book the tags of its entries and the fixed tags. Answers them.
    pub fn reset_book_tags(&mut self, book_id: i64, fixed: &Vec<String>) -> (r: Result<
        Vec<String>,
        String,
    >)
        requires
            old(self).wf(),
        ensures
            final(self).wf(),
            ({
                let tags = with_all_new(
                    source_tags(sources_of(old(self)@.sources, book_id as int)),
                    strs(fixed@),
                );
                match r {
                    Ok(v) => {
                        &&& strs(v@) == tags
                        &&& tags.len() > 0
                        &&& final(self)@ == tags_set(old(self)@, book_id as int, tags)
                    },
                    Err(e) => {
                        &&& tags.len() == 0
                        &&& e@ == "claspclub 来源不含任何标签信息"@
                        &&& *final(self) == *old(self)
                    },
                }
            }),
    {
        let rows = self.list_sources(book_id);
        let ghost all = sources_of(self@.sources, book_id as int);
        let mut tags: Vec<String> = Vec::new();
        let mut i: usize = 0;
        assert(all.take(0) =~= Seq::<SourceView>::empty());
        assert(strs(tags@) =~= source_tags(all.take(0)));
        while i < rows.len()
            invariant
                i <= rows@.len(),
                rows@.len() == all.len(),
                forall|k: int| 0 <= k < rows@.len() ==> source_is(#[trigger] rows@[k], all[k]),
                strs(tags@) == source_tags(all.take(i as int)),
            decreases rows@.len() - i,
        {
            assert(all.take(i + 1).drop_last() =~= all.take(i as int));
            assert(all.take(i + 1).last() == all[i as int]);
            proof {
                row_shows(rows@[i as int], all[i as int]);
            }
            if same(&rows[i].kind, "clasp") {
                add_all_new(&mut tags, &tags_stored(&rows[i].tags));
            }
            i += 1;
        }
        assert(all.take(rows@.len() as int) =~= all);
        add_all_new(&mut tags, fixed);
        assert(strs(tags@).len() == tags@.len());
        if tags.len() == 0 {
            return Err("claspclub 来源不含任何标签信息".to_owned());
        }
        self.set_book_tags(book_id, &join_tags(&tags));
        Ok(tags)
    }

    /// The entries among a book's sources whose series is still to be fetched.
    pub fn sources_without_series(&self, book_id: i64) -> (r: Vec<String>)
        ensures
            strs(r@) == unserialised(sources_of(self@.sources, book_id as int)),
    {
        let rows = self.list_sources(book_id);
        let ghost all = sources_of(self@.sources, book_id as int);
        let mut out: Vec<String> = Vec::new();
        let mut i: usize = 0;
        assert(all.take(0) =~= Seq::<SourceView>::empty());
        assert(strs(out@) =~= unserialised(all.take(0)));
        while i < rows.len()
            invariant
                i <= rows@.len(),
                rows@.len() == all.len(),
                forall|k: int| 0 <= k < rows@.len() ==> source_is(#[trigger] rows@[k], all[k]),
                strs(out@) == unserialised(all.take(i as int)),
            decreases rows@.len() - i,
        {
            assert(all.take(i + 1).drop_last() =~= all.take(i as int));
            assert(all.take(i + 1).last() == all[i as int]);
            proof {
                row_shows(rows@[i as int], all[i as int]);
            }
            let named = match &rows[i].series_name {
                Some(n) => !blank(n),
                None => false,
            };
            if same(&rows[i].kind, "clasp") && !named {
                let s = rows[i].ref_key.as_str().to_owned();
                proof {
                    strs_push(out@, s);
                }
                out.push(s);
            }
            i += 1;
        }
        assert(all.take(rows@.len() as int) =~= all);
        out
    }

    /// Gives a book the series that its entries agree on. Answers it.
    pub fn reset_book_series(&mut self, book_id: i64) -> (r: Result<(String, Option<i64>), String>)
        requires
            old(self).wf(),
        ensures
            final(self).wf(),
            match inherited(series_pairs(sources_of(old(self)@.sources, book_id as int), false)) {
                Some(p) => {
                    &&& r matches Ok(v) && v.0@ == p.0 && v.1 == p.1
                    &&& final(self)@ == series_set(old(self)@, book_id as int, p.0, p.1)
                },
                None => {
                    &&& r matches Err(e) && e@ == "claspclub 来源的系列信息不一致或缺失，无法自动重设"@
                    &&& *final(self) == *old(self)
                },
            },
    {
        let pairs = self.pairs_of(book_id, false);
        match inherit_series(&pairs) {
            Some(p) => {
                self.set_book_series(book_id, Some(p.0.as_str()), p.1);
                Ok(p)
            },
            None => Err("claspclub 来源的系列信息不一致或缺失，无法自动重设".to_owned()),
        }
    }
}

/// What was fetched for an entry whose tags were missing.
pub open spec fn tags_row(
    book: int,
    ref_key: Seq<char>,
    tags: Seq<Seq<char>>,
    series: Option<(String, Option<i64>)>,
) -> SourceView {
    SourceView {
        id: 0,
        book_id: book,
        kind: "clasp"@,
        ref_key,
        position: 0,
        title: None,
        author: None,
        cover_url: None,
        cover_path: None,
        summary: None,
        tags: Some(json_of_strings(tags)),
        series_name: match series {
            Some(p) => Some(p.0@),
            None => None,
        },
        series_order: match series {
            Some(p) => p.1,
            None => None,
        },
        editions: None,
    }
}

/// The text where the tags of an entry could not be fetched.
pub fn tags_failure(ref_key: &str, error: &str) -> (r: String)
    ensures
        r@ == "获取来源 "@ + ref_key@ + " 标签失败: "@ + error@,
{
    "获取来源 ".to_owned().concat(ref_key).concat(" 标签失败: ").concat(error)
}

/// The text where the series of an entry could not be fetched.
pub fn series_failure(ref_key: &str, error: &str) -> (r: String)
    ensures
        r@ == "获取来源 "@ + ref_key@ + " 系列失败: "@ + error@,
{
    "获取来源 ".to_owned().concat(ref_key).concat(" 系列失败: ").concat(error)
}

// ---- what is named, and what a book takes over ----

proof fn id_ends(s: Seq<char>, i: int, k: int, e: int)
    requires
        0 <= i <= k <= e <= s.len(),
        forall|j: int| k <= j < e ==> !ends_id(#[trigger] s[j]),
        e == s.len() || ends_id(s[e]),
    ensures
        id_from(s, i, k) == s.subrange(i, e),
    decreases e - k,
{
    if k < e {
        assert(!ends_id(s[k]));
        id_ends(s, i, k + 1, e);
    }
}

/// An address of the page of an entry names the entry by what stands behind the first mark of
/// such pages, up to a slash, a question mark or a number sign, whatever stands before the mark
/// and behind the name. Without a name there it names none.
pub proof fn an_address_names_its_entry(
    text: Seq<char>,
    head: Seq<char>,
    id: Seq<char>,
    tail: Seq<char>,
)
    requires
        trim(text) == head + "claspclub.com/books/"@ + id + tail,
        forall|i: int|
            0 <= i < head.len() ==> !occurs_at(trim(text), "claspclub.com/books/"@, i),
        forall|i: int|
            0 <= i < id.len() ==> #[trigger] id[i] != '/' && id[i] != '?' && id[i] != '#',
        tail.len() > 0 ==> tail[0] == '/' || tail[0] == '?' || tail[0] == '#',
    ensures
        id.len() > 0 ==> entry_named(text) == Some(id),
        id.len() == 0 ==> entry_named(text) is None,
{
    let p = "claspclub.com/books/"@;
    let s = trim(text);
    let h = head.len() as int;
    assert(s.subrange(h, h + p.len()) =~= p);
    assert(occurs_at(s, p, h));
    find_from_is_first(s, p, 0);
    match find(s, p) {
        Some(k) => {
            if k < h {
                assert(!occurs_at(s, p, k));
            }
            assert(k == h);
        },
        None => {
            assert(!occurs_at(s, p, h));
        },
    }
    let i = h + p.len();
    let e = i + id.len();
    assert forall|j: int| i <= j < e implies !ends_id(#[trigger] s[j]) by {
        assert(s[j] == id[j - i]);
    }
    if e < s.len() {
        assert(s[e] == tail[0]);
    }
    id_ends(s, i, i, e);
    assert(s.subrange(i, e) =~= id);
}

/// A text without the mark of such pages names an entry where it has no slash but at its start:
/// by the text itself, without the slashes and the white space round it.
pub proof fn an_id_names_its_entry(text: Seq<char>, slashes: Seq<char>, id: Seq<char>)
    requires
        trim(text) == slashes + id,
        !has_part(trim(text), "claspclub.com/books/"@),
        forall|i: int| 0 <= i < slashes.len() ==> #[trigger] slashes[i] == '/',
        id.len() > 0 ==> id[0] != '/',
    ensures
        (id.len() > 0 && !id.contains('/')) ==> entry_named(text) == Some(id),
        (id.len() == 0 || id.contains('/')) ==> entry_named(text) is None,
{
    let p = "claspclub.com/books/"@;
    let s = trim(text);
    find_from_is_first(s, p, 0);
    match find(s, p) {
        Some(k) => {
            assert(occurs_at(s, p, k));
        },
        None => {},
    }
    let n = slashes_are_stripped(s);
    let k = slashes.len() as int;
    if n < k {
        assert(s[n] == slashes[n]);
    }
    if n > k {
        assert(s[k] == id[0]);
    }
    assert(s.skip(k) =~= id);
}

/// The entries that are named are those that some text names, each once.
pub proof fn every_entry_named_counts_once(items: Seq<Seq<char>>, id: Seq<char>)
    ensures
        entries_named(items).no_duplicates(),
        entries_named(items).contains(id) <==> exists|i: int|
            0 <= i < items.len() && entry_named(#[trigger] items[i]) == Some(id),
    decreases items.len(),
{
    if items.len() > 0 {
        let d = items.drop_last();
        let k = items.len() - 1;
        let before = entries_named(d);
        let now = entries_named(items);
        every_entry_named_counts_once(d, id);
        assert(forall|i: int| 0 <= i < k ==> #[trigger] d[i] == items[i]);
        if before.contains(id) {
            let m = choose|m: int| 0 <= m < before.len() && before[m] == id;
            assert(now[m] == id);
            let i = choose|i: int| 0 <= i < d.len() && entry_named(#[trigger] d[i]) == Some(id);
            assert(entry_named(items[i]) == Some(id));
        } else if now.contains(id) {
            let m = choose|m: int| 0 <= m < now.len() && now[m] == id;
            if m < before.len() {
                assert(before[m] == id);
            }
            assert(entry_named(items[k]) == Some(id));
        } else {
            assert forall|i: int| 0 <= i < items.len() implies entry_named(#[trigger] items[i])
                != Some(id) by {
                if i < k {
                    assert(entry_named(d[i]) != Some(id));
                } else if entry_named(items[k]) == Some(id) {
                    assert(now.last() == id);
                }
            }
        }
    }
}

/// The pages that are named are the lines that are not blank, without the white space round them,
/// each once. They are taken where every such line is the address of a book's page; else the
/// first that is not is found.
pub proof fn every_page_named_counts_once(items: Seq<Seq<char>>, u: Seq<char>)
    ensures
        pages_named(items).no_duplicates(),
        pages_named(items).contains(u) <==> exists|i: int|
            0 <= i < items.len() && !is_blank(#[trigger] items[i]) && trim(items[i]) == u,
    decreases items.len(),
{
    if items.len() > 0 {
        let d = items.drop_last();
        let k = items.len() - 1;
        let before = pages_named(d);
        let now = pages_named(items);
        every_page_named_counts_once(d, u);
        assert(forall|i: int| 0 <= i < k ==> #[trigger] d[i] == items[i]);
        if before.contains(u) {
            let m = choose|m: int| 0 <= m < before.len() && before[m] == u;
            assert(now[m] == u);
            let i = choose|i: int|
                0 <= i < d.len() && !is_blank(#[trigger] d[i]) && trim(d[i]) == u;
            assert(!is_blank(items[i]) && trim(items[i]) == u);
        } else if now.contains(u) {
            let m = choose|m: int| 0 <= m < now.len() && now[m] == u;
            if m < before.len() {
                assert(before[m] == u);
            }
            assert(!is_blank(items[k]) && trim(items[k]) == u);
        } else {
            assert forall|i: int| 0 <= i < items.len() implies is_blank(#[trigger] items[i]) || trim(
                items[i],
            ) != u by {
                if i < k {
                    assert(is_blank(d[i]) || trim(d[i]) != u);
                } else if !is_blank(items[k]) && trim(items[k]) == u {
                    assert(now.last() == u);
                }
            }
        }
    }
}

/// The line that is complained of is the first that is neither blank nor the address of a book's
/// page; there is none where every line is one of the two.
pub proof fn the_first_bad_page_is_found(items: Seq<Seq<char>>, i: int)
    requires
        0 <= i,
    ensures
        match bad_page(items, i) {
            Some(k) => {
                &&& i <= k < items.len()
                &&& !is_blank(items[k])
                &&& !has_part(trim(items[k]), "book.douban.com/subject/"@)
                &&& forall|j: int|
                    i <= j < k ==> is_blank(#[trigger] items[j]) || has_part(
                        trim(items[j]),
                        "book.douban.com/subject/"@,
                    )
            },
            None => forall|j: int|
                i <= j < items.len() ==> is_blank(#[trigger] items[j]) || has_part(
                    trim(items[j]),
                    "book.douban.com/subject/"@,
                ),
        },
    decreases items.len() - i,
{
    if i < items.len() && (is_blank(items[i]) || has_part(
        trim(items[i]),
        "book.douban.com/subject/"@,
    )) {
        the_first_bad_page_is_found(items, i + 1);
    }
}

/// What is new to a book are the references that no source of the kind has, in the order in which
/// they are given.
pub proof fn references_that_are_new(rows: Seq<SourceRow>, kind: Seq<char>, refs: Seq<Seq<char>>) -> (m: Seq<
    int,
>)
    ensures
        m.len() == missing_refs(rows, kind, refs).len(),
        forall|i: int, j: int| 0 <= i < j < m.len() ==> #[trigger] m[i] < #[trigger] m[j],
        forall|i: int|
            0 <= i < m.len() ==> 0 <= #[trigger] m[i] < refs.len() && missing_refs(
                rows,
                kind,
                refs,
            )[i] == refs[m[i]] && (forall|k: int|
                0 <= k < rows.len() ==> !((#[trigger] rows[k]).kind@ == kind && rows[k].ref_key@
                    == refs[m[i]])),
        forall|p: int|
            0 <= p < refs.len() && (forall|k: int|
                0 <= k < rows.len() ==> !((#[trigger] rows[k]).kind@ == kind && rows[k].ref_key@
                    == refs[p])) ==> #[trigger] m.contains(p),
{
    let f = |r: Seq<char>| !holds_source(rows, kind, r);
    let m = filter_places(refs, f);
    assert forall|p: int|
        0 <= p < refs.len() && (forall|k: int|
            0 <= k < rows.len() ==> !((#[trigger] rows[k]).kind@ == kind && rows[k].ref_key@
                == refs[p])) implies #[trigger] m.contains(p) by {
        assert(f(refs[p]));
    }
    m
}

/// The pages that new entries lead to and the book does not have, each once.
pub proof fn pages_that_are_new(rows: Seq<SourceRow>, found: Seq<PendingSource>, u: Seq<char>)
    ensures
        new_pages(rows, found).no_duplicates(),
        new_pages(rows, found).contains(u) <==> !holds_source(rows, "douban"@, u) && exists|i: int|
            0 <= i < found.len() && (#[trigger] found[i]).douban_url is Some
                && found[i].douban_url->0@ == u,
    decreases found.len(),
{
    if found.len() > 0 {
        let d = found.drop_last();
        let k = found.len() - 1;
        let before = new_pages(rows, d);
        let now = new_pages(rows, found);
        pages_that_are_new(rows, d, u);
        assert(forall|i: int| 0 <= i < k ==> #[trigger] d[i] == found[i]);
        if before.contains(u) {
            let m = choose|m: int| 0 <= m < before.len() && before[m] == u;
            assert(now[m] == u);
            let i = choose|i: int|
                0 <= i < d.len() && (#[trigger] d[i]).douban_url is Some && d[i].douban_url->0@
                    == u;
            assert(found[i].douban_url is Some);
        } else if now.contains(u) {
            let m = choose|m: int| 0 <= m < now.len() && now[m] == u;
            if m < before.len() {
                assert(before[m] == u);
            }
            assert(found[k].douban_url is Some);
        } else if !holds_source(rows, "douban"@, u) {
            assert forall|i: int|
                0 <= i < found.len() && (#[trigger] found[i]).douban_url is Some implies found[i].douban_url->0@
                != u by {
                if i < k {
                    assert(d[i].douban_url is Some);
                } else if found[k].douban_url->0@ == u {
                    assert(now.last() == u);
                }
            }
        }
    }
}

/// Whether `z` is the source `s` of the book at place `i` of its kind, with all that was found.
pub open spec fn is_found_source(
    z: SourceView,
    book: int,
    kind: Seq<char>,
    i: int,
    s: PendingView,
) -> bool {
    &&& z.book_id == book && z.kind == kind && z.ref_key == s.ref_key && z.position == i
    &&& z.title == s.title && z.author == s.author && z.summary == s.summary
    &&& z.cover_url == s.cover_url && z.cover_path == s.cover_path && z.editions == s.editions
    &&& match s.tags {
        Some(t) => z.tags == Some(json_of_strings(t)),
        None => z.tags is None,
    }
    &&& match s.series {
        Some(p) => z.series_name == Some(p.0) && z.series_order == p.1,
        None => z.series_name is None && z.series_order is None,
    }
}

/// Sources that are added stand behind those that are there, each with all that was found and at
/// the next place of its kind. Their comments are added under the name of their site. What was
/// there stays, and so do the books.
pub proof fn sources_are_appended(
    c: CatalogView,
    book: int,
    kind: Seq<char>,
    sources: Seq<PendingView>,
    start: int,
)
    ensures
        ({
            let e = sources_appended(c, book, kind, sources, start);
            let label = kind_label(kind);
            &&& kind == "clasp"@ ==> label == "claspclub"@
            &&& kind != "clasp"@ ==> label == "豆瓣"@
            &&& e.books == c.books
            &&& c.sources.is_prefix_of(e.sources)
            &&& e.sources.len() == c.sources.len() + sources.len()
            &&& forall|i: int|
                0 <= i < sources.len() ==> is_found_source(
                    e.sources[c.sources.len() + i],
                    book,
                    kind,
                    start + i,
                    #[trigger] sources[i],
                )
            &&& c.comments.is_prefix_of(e.comments)
            &&& e.last_comment < i64::MAX ==> forall|i: int, k: int|
                0 <= i < sources.len() && 0 <= k < sources[i].comments.len()
                    ==> #[trigger] has_recorded_comment(e.comments, book, sources[i], k, label)
            &&& e.last_comment >= c.last_comment
        }),
    decreases sources.len(),
{
    let e = sources_appended(c, book, kind, sources, start);
    let label = kind_label(kind);
    if sources.len() > 0 {
        let init = sources.drop_last();
        let n = sources.len() - 1;
        sources_are_appended(c, book, kind, init, start);
        let d = sources_appended(c, book, kind, init, start);
        let s = sources.last();
        let w = source_inserted(d, found_row(book, kind, s.ref_key, start + n, s));
        comments_are_recorded(w, book, s.comments, label, s);
        comments_keep_books(w, book, s.comments, label, s.ref_key);
        assert(e.sources == w.sources);
        assert(w.last_comment == d.last_comment);
        assert(w.comments == d.comments);
        assert forall|i: int| 0 <= i < sources.len() implies is_found_source(
            e.sources[c.sources.len() + i],
            book,
            kind,
            start + i,
            #[trigger] sources[i],
        ) by {
            if i < n {
                assert(init[i] == sources[i]);
                assert(e.sources[c.sources.len() + i] == d.sources[c.sources.len() + i]);
            }
        }
        if e.last_comment < i64::MAX {
            assert forall|i: int, k: int|
                0 <= i < sources.len() && 0 <= k < sources[i].comments.len() implies #[trigger] has_recorded_comment(
            e.comments, book, sources[i], k, label) by {
                if i < n {
                    assert(init[i] == sources[i]);
                    assert(has_recorded_comment(d.comments, book, init[i], k, label));
                    let m = choose|m: int|
                        0 <= m < d.comments.len() && is_recorded_comment(
                            #[trigger] d.comments[m],
                            book,
                            init[i],
                            k,
                            label,
                        );
                    assert(e.comments[m] == d.comments[m]);
                }
            }
        }
    }
}

/// The number of sources of a kind is the number of those that a list of that kind would hold.
pub proof fn kinds_are_counted(rows: Seq<SourceView>, kind: Seq<char>)
    ensures
        count_kind(rows, kind) == rows.filter(|s: SourceView| s.kind == kind).len(),
    decreases rows.len(),
{
    reveal(Seq::filter);
    if rows.len() > 0 {
        kinds_are_counted(rows.drop_last(), kind);
    }
}

/// New sources of a kind take the places behind those of that kind that the book has.
pub proof fn new_sources_stand_last(
    c: CatalogView,
    book: int,
    kind: Seq<char>,
    sources: Seq<PendingView>,
    i: int,
)
    requires
        0 <= i < sources.len(),
    ensures
        ({
            let e = sources_added(c, book, kind, sources);
            &&& e.sources.len() == c.sources.len() + sources.len()
            &&& c.sources.is_prefix_of(e.sources)
            &&& is_found_source(
                e.sources[c.sources.len() + i],
                book,
                kind,
                sources_of(c.sources, book).filter(|s: SourceView| s.kind == kind).len() + i,
                sources[i],
            )
        }),
{
    let rows = sources_of(c.sources, book);
    kinds_are_counted(rows, kind);
    sources_are_appended(c, book, kind, sources, count_kind(rows, kind) as int);
    assert(sources[i] == sources[i]);
}

/// The tags of the sources of a book are those that some entry has; a page of the review site
/// gives none.
pub proof fn entries_give_their_tags(rows: Seq<SourceView>, t: Seq<char>)
    ensures
        source_tags(rows).no_duplicates(),
        source_tags(rows).contains(t) <==> exists|i: int|
            0 <= i < rows.len() && (#[trigger] rows[i]).kind == "clasp"@ && stored_tags(
                rows[i],
            ).contains(t),
    decreases rows.len(),
{
    if rows.len() > 0 {
        let d = rows.drop_last();
        let k = rows.len() - 1;
        entries_give_their_tags(d, t);
        let before = source_tags(d);
        union_is_distinct(before, stored_tags(rows[k]));
        assert(forall|i: int| 0 <= i < k ==> #[trigger] d[i] == rows[i]);
        if before.contains(t) {
            let i = choose|i: int|
                0 <= i < d.len() && (#[trigger] d[i]).kind == "clasp"@ && stored_tags(
                    d[i],
                ).contains(t);
            assert(rows[i].kind == "clasp"@);
        } else {
            assert forall|i: int|
                0 <= i < k && (#[trigger] rows[i]).kind == "clasp"@ implies !stored_tags(
                rows[i],
            ).contains(t) by {
                assert(d[i].kind == "clasp"@);
            }
            if source_tags(rows).contains(t) {
                assert(rows[k].kind == "clasp"@ && stored_tags(rows[k]).contains(t));
            }
        }
    }
}

/// What a source has in its columns is what it gives: the tags of the list that is written
/// there, none where there is no list; and the series, which a page never gives and a blank name
/// only where it is asked for.
pub proof fn what_a_source_gives(s: SourceView, blank_too: bool)
    ensures
        s.tags is None ==> stored_tags(s).len() == 0,
        s.tags matches Some(j) ==> match strings_of_json(j) {
            Some(l) => stored_tags(s) == l,
            None => stored_tags(s).len() == 0,
        },
        stored_series(s, blank_too) is Some <==> s.kind == "clasp"@ && s.series_name is Some && (
        blank_too || !is_blank(s.series_name->0)),
        stored_series(s, blank_too) matches Some(p) ==> Some(p.0) == s.series_name && p.1
            == s.series_order,
{
}

/// The entries whose tags or series are still to be fetched are those that have none.
pub proof fn which_entries_lack_something(rows: Seq<SourceView>, r: Seq<char>)
    ensures
        untagged(rows).contains(r) <==> exists|i: int|
            0 <= i < rows.len() && (#[trigger] rows[i]).kind == "clasp"@ && rows[i].ref_key == r
                && stored_tags(rows[i]).len() == 0,
        unserialised(rows).contains(r) <==> exists|i: int|
            0 <= i < rows.len() && (#[trigger] rows[i]).kind == "clasp"@ && rows[i].ref_key == r && (
            rows[i].series_name is None || is_blank(rows[i].series_name->0)),
    decreases rows.len(),
{
    if rows.len() > 0 {
        let d = rows.drop_last();
        let k = rows.len() - 1;
        let z = rows[k];
        which_entries_lack_something(d, r);
        assert(forall|i: int| 0 <= i < k ==> #[trigger] d[i] == rows[i]);
        pushed_or_there(untagged(d), z.ref_key, r);
        pushed_or_there(unserialised(d), z.ref_key, r);
        if untagged(d).contains(r) {
            let i = choose|i: int|
                0 <= i < d.len() && (#[trigger] d[i]).kind == "clasp"@ && d[i].ref_key == r
                    && stored_tags(d[i]).len() == 0;
            assert(rows[i].kind == "clasp"@);
        } else {
            assert forall|i: int|
                0 <= i < k && (#[trigger] rows[i]).kind == "clasp"@ && rows[i].ref_key == r implies stored_tags(
            rows[i]).len() > 0 by {
                assert(d[i].kind == "clasp"@);
            }
        }
        if unserialised(d).contains(r) {
            let i = choose|i: int|
                0 <= i < d.len() && (#[trigger] d[i]).kind == "clasp"@ && d[i].ref_key == r && (
                d[i].series_name is None || is_blank(d[i].series_name->0));
            assert(rows[i].kind == "clasp"@);
        } else {
            assert forall|i: int|
                0 <= i < k && (#[trigger] rows[i]).kind == "clasp"@ && rows[i].ref_key == r implies !(
            rows[i].series_name is None || is_blank(rows[i].series_name->0)) by {
                assert(d[i].kind == "clasp"@);
            }
        }
    }
}

proof fn pushed_or_there(v: Seq<Seq<char>>, a: Seq<char>, x: Seq<char>)
    ensures
        v.push(a).contains(x) <==> v.contains(x) || x == a,
{
    let w = v.push(a);
    if v.contains(x) {
        let k = choose|k: int| 0 <= k < v.len() && v[k] == x;
        assert(w[k] == x);
    }
    if x == a {
        assert(w[v.len() as int] == x);
    }
    if w.contains(x) && x != a {
        let k = choose|k: int| 0 <= k < w.len() && w[k] == x;
        assert(v[k] == x);
    }
}

/// The series that the entries of a book name: one for each entry that names one, in order.
pub proof fn entries_name_their_series(rows: Seq<SourceView>, blank_too: bool, p: (Seq<char>, Option<i64>))
    ensures
        series_pairs(rows, blank_too).len() == rows.filter(
            |s: SourceView| s.kind == "clasp"@ && s.series_name is Some && (blank_too || !is_blank(
                s.series_name->0,
            )),
        ).len(),
        series_pairs(rows, blank_too).contains(p) <==> exists|i: int|
            0 <= i < rows.len() && (#[trigger] rows[i]).kind == "clasp"@ && rows[i].series_name
                == Some(p.0) && rows[i].series_order == p.1 && (blank_too || !is_blank(p.0)),
    decreases rows.len(),
{
    reveal(Seq::filter);
    if rows.len() > 0 {
        let d = rows.drop_last();
        let k = rows.len() - 1;
        let before = series_pairs(d, blank_too);
        let now = series_pairs(rows, blank_too);
        entries_name_their_series(d, blank_too, p);
        assert(forall|i: int| 0 <= i < k ==> #[trigger] d[i] == rows[i]);
        if before.contains(p) {
            let m = choose|m: int| 0 <= m < before.len() && before[m] == p;
            assert(now[m] == p);
            let i = choose|i: int|
                0 <= i < d.len() && (#[trigger] d[i]).kind == "clasp"@ && d[i].series_name == Some(
                    p.0,
                ) && d[i].series_order == p.1 && (blank_too || !is_blank(p.0));
            assert(rows[i].kind == "clasp"@);
        } else if now.contains(p) {
            let m = choose|m: int| 0 <= m < now.len() && now[m] == p;
            if m < before.len() {
                assert(before[m] == p);
            }
            assert(rows[k].kind == "clasp"@);
        } else {
            assert forall|i: int|
                0 <= i < rows.len() && (#[trigger] rows[i]).kind == "clasp"@ && rows[i].series_name
                    == Some(p.0) && rows[i].series_order == p.1 implies !(blank_too || !is_blank(
                p.0,
            )) by {
                if i < k {
                    assert(d[i].kind == "clasp"@);
                } else if blank_too || !is_blank(p.0) {
                    assert(now.last() == p);
                }
            }
        }
    }
}

/// The tags of sources that were found are those of each of them, in order.
pub proof fn found_tags_are_those_of_all(found: Seq<PendingView>, t: Seq<char>)
    ensures
        found_tags(found).contains(t) <==> exists|i: int|
            0 <= i < found.len() && (#[trigger] found[i]).tags is Some && found[i].tags->0.contains(
                t,
            ),
    decreases found.len(),
{
    if found.len() > 0 {
        let d = found.drop_last();
        let k = found.len() - 1;
        let before = found_tags(d);
        let now = found_tags(found);
        found_tags_are_those_of_all(d, t);
        assert(forall|i: int| 0 <= i < k ==> #[trigger] d[i] == found[i]);
        if before.contains(t) {
            let m = choose|m: int| 0 <= m < before.len() && before[m] == t;
            assert(now[m] == t);
            let i = choose|i: int|
                0 <= i < d.len() && (#[trigger] d[i]).tags is Some && d[i].tags->0.contains(t);
            assert(found[i].tags is Some);
        } else if now.contains(t) {
            let m = choose|m: int| 0 <= m < now.len() && now[m] == t;
            if m < before.len() {
                assert(before[m] == t);
            }
            assert(found[k].tags is Some);
            assert(found[k].tags->0[m - before.len()] == t);
        } else {
            assert forall|i: int|
                0 <= i < found.len() && (#[trigger] found[i]).tags is Some implies !found[i].tags->0.contains(
            t) by {
                if i < k {
                    assert(d[i].tags is Some);
                } else if found[k].tags->0.contains(t) {
                    let l = found[k].tags->0;
                    let m = choose|m: int| 0 <= m < l.len() && l[m] == t;
                    assert(now[before.len() + m] == t);
                }
            }
        }
    }
}

/// A book that takes tags over has those it had, then the new ones, then the fixed ones, none
/// of the added ones twice; without new ones it keeps what it had. Nothing else of it changes,
/// and no other book. `tags` lists what it has.
pub proof fn a_book_takes_tags_over(
    c: CatalogView,
    book: int,
    new: Seq<Seq<char>>,
    fixed: Seq<Seq<char>>,
    k: int,
) -> (tags: Seq<Seq<char>>)
    requires
        0 <= k < c.books.len(),
    ensures
        ({
            let e = tags_taken(c, book, new, fixed);
            &&& e.books.len() == c.books.len()
            &&& e.sources == c.sources && e.comments == c.comments
            &&& c.books[k].id != book || new.len() == 0 ==> e.books[k] == c.books[k]
            &&& c.books[k].id == book && new.len() > 0 ==> {
                &&& e.books[k] == (BookView { tags: Some(join(tags, ", "@)), ..c.books[k] })
                &&& book_tags(c, book).is_prefix_of(tags)
                &&& forall|t: Seq<char>|
                    tags.contains(t) <==> book_tags(c, book).contains(t) || new.contains(t)
                        || fixed.contains(t)
            }
        }),
{
    let had = book_tags(c, book);
    let mid = with_all_new(had, new);
    let tags = with_all_new(mid, fixed);
    assert forall|t: Seq<char>|
        tags.contains(t) <==> had.contains(t) || new.contains(t) || fixed.contains(t) by {
        union_holds_both(had, new, t);
        union_holds_both(mid, fixed, t);
    }
    union_holds_both(had, new, Seq::empty());
    union_holds_both(mid, fixed, Seq::empty());
    assert(had.is_prefix_of(tags)) by {
        assert forall|i: int| 0 <= i < had.len() implies had[i] == tags[i] by {
            assert(had[i] == mid[i]);
            assert(mid[i] == tags[i]);
        }
    }
    tags
}

/// A book takes the series over that all its entries with a series name; where they differ, or
/// none names one, it keeps what it had. Nothing else of it changes, and no other book.
pub proof fn a_book_takes_the_series_over(c: CatalogView, book: int, k: int)
    requires
        0 <= k < c.books.len(),
    ensures
        ({
            let e = series_taken(c, book);
            let pairs = series_pairs(sources_of(c.sources, book), true);
            let agreed = pairs.len() > 0 && forall|i: int|
                0 <= i < pairs.len() ==> (#[trigger] pairs[i]).0 == pairs[0].0;
            &&& e.books.len() == c.books.len()
            &&& e.sources == c.sources && e.comments == c.comments
            &&& c.books[k].id != book || !agreed ==> e.books[k] == c.books[k]
            &&& c.books[k].id == book && agreed ==> e.books[k] == (BookView {
                series_name: Some(pairs[0].0),
                series_order: e.books[k].series_order,
                ..c.books[k]
            })
            &&& c.books[k].id == book && agreed && pairs.len() == 1 ==> e.books[k].series_order
                == pairs[0].1
        }),
{
    let pairs = series_pairs(sources_of(c.sources, book), true);
    series_is_inherited_where_all_agree(pairs);
    let agreed = pairs.len() > 0 && forall|i: int|
        0 <= i < pairs.len() ==> (#[trigger] pairs[i]).0 == pairs[0].0;
    if inherited(pairs) is Some {
        assert forall|i: int| 0 <= i < pairs.len() implies (#[trigger] pairs[i]).0 == pairs[0].0 by {}
        assert(agreed);
    } else if agreed {
        assert forall|i: int, j: int| 0 <= i < pairs.len() && 0 <= j < pairs.len() implies (
        #[trigger] pairs[i]).0 == (#[trigger] pairs[j]).0 by {}
    }
    if agreed && pairs.len() == 1 {
        assert(forall|i: int, j: int|
            0 <= i < pairs.len() && 0 <= j < pairs.len() ==> (#[trigger] pairs[i]).1 == (
            #[trigger] pairs[j]).1);
    }
}

/// New entries come as sources of the book, which then takes their tags and, with these sources
/// too, the series that all of them name.
pub proof fn new_entries_bring_tags_and_series(
    c: CatalogView,
    book: int,
    found: Seq<PendingView>,
    fixed: Seq<Seq<char>>,
)
    ensures
        ({
            let d = sources_added(c, book, "clasp"@, found);
            let e = entries_added(c, book, found, fixed);
            &&& e == series_taken(tags_taken(d, book, found_tags(found), fixed), book)
            &&& e.sources == d.sources && e.comments == d.comments
            &&& e.books.len() == c.books.len()
        }),
{
    let rows = sources_of(c.sources, book);
    sources_are_appended(c, book, "clasp"@, found, count_kind(rows, "clasp"@) as int);
}

/// What is fetched for an entry whose tags were missing are its tags and its series.
pub proof fn what_is_fetched_with_tags(
    book: int,
    ref_key: Seq<char>,
    tags: Seq<Seq<char>>,
    series: Option<(String, Option<i64>)>,
)
    ensures
        ({
            let r = tags_row(book, ref_key, tags, series);
            &&& r.book_id == book && r.kind == "clasp"@ && r.ref_key == ref_key
            &&& r.tags == Some(json_of_strings(tags))
            &&& series matches Some(p) ==> r.series_name == Some(p.0@) && r.series_order == p.1
            &&& series is None ==> r.series_name is None && r.series_order is None
            &&& r.title is None && r.author is None && r.summary is None && r.cover_url is None
            &&& r.cover_path is None && r.editions is None
        }),
{
}

} // verus!
