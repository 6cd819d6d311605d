//! The page of a book: what it shows, and what the user changes there.
use vstd::prelude::*;
use vstd::string::*;

use crate::agent::DescriptionFusion;
use crate::db::{
    book_of, coalesce, with_book, BookView, Catalog, CatalogView, CommentView, SourceRow,
    SourceView,
};
use crate::editing::{found_row, kind_label, label_of, row_found, row_shows};
use crate::importing::{series_typed, typed_series, volume_typed};
use crate::ingestion::{PendingSource, PendingView, PreparedImport};
use crate::libraries::copy_opt;
use crate::library::{file_name, to_ascii_filename};
use crate::json::json_of_strings;
use crate::records::{
    commented, comments_are_recorded, comments_keep_books, has_recorded_comment,
};
use crate::sources::{
    a_refreshed_source_keeps_what_was_not_found, columns_synced, comments_cleared, copy_source,
    refreshing_adds_no_comment, refresh_orphans, reordered_first, source_is,
    source_refreshed, sources_of,
};
use crate::spider::{add_all_new, union_holds_both, with_all_new, RemarkView};
use crate::text::{
    blank, clone_strings, is_blank, join, lowercase, opt_str, same, split, split_nonempty, split_on,
    strs, strs_push, to_lower, trim, trimmed,
};
use crate::utils::{join_tags, split_tags, tags_in};

verus! {

// ---- what is shown ----

/// The cover of an edition, as it is shown.
#[derive(Debug)]
pub struct EditionCoverDto {
    pub label: String,
    pub url: String,
    pub path: Option<String>,
}

/// A source, as it is shown.
#[derive(Debug)]
pub struct SourceDto {
    pub kind: String,
    pub ref_key: String,
    pub position: i64,
    pub title: Option<String>,
    pub author: Option<String>,
    pub cover_url: Option<String>,
    pub cover_path: Option<String>,
    pub summary: Option<String>,
    pub series_name: Option<String>,
    pub series_order: Option<i64>,
    pub editions: Vec<EditionCoverDto>,
}

/// A source with the covers of its editions, as it is shown.
pub fn source_row_to_dto(row: SourceRow, editions: Vec<EditionCoverDto>) -> (r: SourceDto)
    ensures
        r.kind == row.kind,
        r.ref_key == row.ref_key,
        r.position == row.position,
        r.title == row.title,
        r.author == row.author,
        r.cover_url == row.cover_url,
        r.cover_path == row.cover_path,
        r.summary == row.summary,
        r.series_name == row.series_name,
        r.series_order == row.series_order,
        r.editions == editions,
{
    SourceDto {
        kind: row.kind,
        ref_key: row.ref_key,
        position: row.position,
        title: row.title,
        author: row.author,
        cover_url: row.cover_url,
        cover_path: row.cover_path,
        summary: row.summary,
        series_name: row.series_name,
        series_order: row.series_order,
        editions,
    }
}

/// A new cover.
#[derive(Debug)]
pub struct CoverUpdateDto {
    pub cover_path: String,
}

/// A description that was made.
#[derive(Debug)]
pub struct DescriptionDto {
    pub description: String,
    /// The model that made it.
    pub model: Option<String>,
    /// Why no model made it.
    pub degraded: Option<String>,
}

/// A description that was made, as it is shown.
pub fn description_dto(f: &DescriptionFusion) -> (r: DescriptionDto)
    ensures
        r.description == f.text,
        match f.llm {
            Some(p) => opt_str(r.model) == Some(p.0@),
            None => r.model is None,
        },
        r.degraded == f.degraded,
{
    DescriptionDto {
        description: f.text.clone(),
        model: match &f.llm {
            Some(p) => Some(p.0.as_str().to_owned()),
            None => None,
        },
        degraded: copy_opt(&f.degraded),
    }
}

/// A merged book.
#[derive(Debug)]
pub struct MergeResultDto {
    pub id: i64,
    pub title: String,
}

// ---- kinds of sources ----

/// Checks that there is such a kind of source.
pub fn check_kind(kind: &str) -> (r: Result<(), String>)
    ensures
        match r {
            Ok(_) => kind@ == "clasp"@ || kind@ == "douban"@,
            Err(e) => kind@ != "clasp"@ && kind@ != "douban"@ && e@ == "无效的来源类别"@,
        },
{
    if same(kind, "clasp") || same(kind, "douban") {
        Ok(())
    } else {
        Err("无效的来源类别".to_owned())
    }
}

/// The first of the sources with the kind and the reference.
pub open spec fn named_source(rows: Seq<SourceView>, kind: Seq<char>, ref_key: Seq<char>) -> Option<
    SourceView,
>
    decreases rows.len(),
{
    if rows.len() == 0 {
        None
    } else if rows[0].kind == kind && rows[0].ref_key == ref_key {
        Some(rows[0])
    } else {
        named_source(rows.drop_first(), kind, ref_key)
    }
}

/// The address of the cover that a source offers: that of an edition, where one is chosen.
pub open spec fn cover_offered(s: Option<SourceView>, edition: Option<Seq<char>>) -> Result<
    Seq<char>,
    Seq<char>,
> {
    match s {
        Some(v) => match v.cover_url {
            Some(own) => {
                let url = match edition {
                    Some(e) => if is_blank(e) {
                        own
                    } else {
                        e
                    },
                    None => own,
                };
                if is_blank(url) {
                    Err("该项目没有可用封面链接"@)
                } else {
                    Ok(url)
                }
            },
            None => Err("来源项目不存在"@),
        },
        None => Err("来源项目不存在"@),
    }
}

/// The summaries of the sources that are not blank.
pub open spec fn summaries_of(rows: Seq<SourceView>) -> Seq<Seq<char>>
    decreases rows.len(),
{
    if rows.len() == 0 {
        Seq::empty()
    } else {
        let before = summaries_of(rows.drop_last());
        match rows.last().summary {
            Some(s) => if is_blank(s) {
                before
            } else {
                before.push(s)
            },
            None => before,
        }
    }
}

/// The extension of a picture, by its address.
pub open spec fn url_extension(url: Seq<char>) -> Seq<char> {
    let path = split_on(url, seq!['?', '#'])[0];
    let ext = lowercase(split_on(path, seq!['.']).last());
    if ext == "png"@ || ext == "webp"@ {
        ext
    } else {
        "jpg"@
    }
}

/// The extension of a picture, by its address.
pub fn cover_ext_from_url(url: &str) -> (r: String)
    ensures
        r@ == url_extension(url@),
{
    let marks: Vec<char> = vec!['?', '#'];
    assert(marks@ =~= seq!['?', '#']);
    let dot: Vec<char> = vec!['.'];
    assert(dot@ =~= seq!['.']);
    let parts = split(url, &marks);
    proof {
        let seps = seq!['?', '#'];
        split_nonempty(url@, |c: char| seps.contains(c));
        assert(strs(parts@)[0] == parts@[0]@);
    }
    let names = split(&parts[0], &dot);
    proof {
        let seps = seq!['.'];
        split_nonempty(parts@[0]@, |c: char| seps.contains(c));
        assert(strs(names@).last() == names@.last()@);
    }
    let ext = to_lower(&names[names.len() - 1]);
    if same(&ext, "png") || same(&ext, "webp") {
        ext
    } else {
        "jpg".to_owned()
    }
}

/// The catalogue with the comments on a source as they were fetched anew, where they were
/// asked for.
pub open spec fn comments_renewed(
    c: CatalogView,
    book: int,
    kind: Seq<char>,
    ref_key: Seq<char>,
    s: PendingView,
    comments: bool,
) -> CatalogView {
    if comments {
        commented(
            comments_cleared(c, book, ref_key),
            book,
            s.comments,
            kind_label(kind),
            ref_key,
        )
    } else {
        c
    }
}

/// The catalogue with a source as it was fetched anew, and with its comments where they were
/// asked for.
pub open spec fn source_renewed(
    c: CatalogView,
    book: int,
    kind: Seq<char>,
    ref_key: Seq<char>,
    s: PendingView,
    comments: bool,
) -> CatalogView {
    source_refreshed(
        comments_renewed(c, book, kind, ref_key, s, comments),
        found_row(book, kind, ref_key, 0, s),
    )
}

impl Catalog {
    fn source_named(&self, book_id: i64, kind: &str, ref_key: &str) -> (r: Option<SourceRow>)
        ensures
            match r {
                Some(row) => named_source(
                    sources_of(self@.sources, book_id as int),
                    kind@,
                    ref_key@,
                ) matches Some(v) && source_is(row, v),
                None => named_source(
                    sources_of(self@.sources, book_id as int),
                    kind@,
                    ref_key@,
                ) is None,
            },
    {
        let rows = self.list_sources(book_id);
        let ghost all = sources_of(self@.sources, book_id as int);
        let mut i: usize = 0;
        assert(all.skip(0) =~= all);
        while i < rows.len()
            invariant
                i <= rows@.len(),
                rows@.len() == all.len(),
                all == sources_of(self@.sources, book_id as int),
                forall|k: int| 0 <= k < rows@.len() ==> source_is(#[trigger] rows@[k], all[k]),
                named_source(all, kind@, ref_key@) == named_source(
                    all.skip(i as int),
                    kind@,
                    ref_key@,
                ),
            decreases rows@.len() - i,
        {
            proof {
                row_shows(rows@[i as int], all[i as int]);
                assert(all.skip(i as int)[0] == all[i as int]);
                assert(all.skip(i as int).drop_first() =~= all.skip(i + 1));
            }
            if same(&rows[i].kind, kind) && same(&rows[i].ref_key, ref_key) {
                return Some(copy_source(&rows[i]));
            }
            i += 1;
        }
        None
    }

    /// The address of the cover that a source offers: that of an edition, where one is chosen.
    pub fn source_cover_url(
        &self,
        book_id: i64,
        kind: &str,
        ref_key: &str,
        edition: &Option<String>,
    ) -> (r: Result<String, String>)
        ensures
            match cover_offered(
                named_source(sources_of(self@.sources, book_id as int), kind@, ref_key@),
                opt_str(*edition),
            ) {
                Ok(u) => r matches Ok(v) && v@ == u,
                Err(t) => r matches Err(e) && e@ == t,
            },
    {
        match self.source_named(book_id, kind, ref_key) {
            Some(row) => {
                proof {
                    row_shows(
                        row,
                        named_source(
                            sources_of(self@.sources, book_id as int),
                            kind@,
                            ref_key@,
                        )->0,
                    );
                }
                match row.cover_url {
                    Some(own) => {
                        let url = match edition {
                            Some(e) => if blank(e) {
                                own
                            } else {
                                e.as_str().to_owned()
                            },
                            None => own,
                        };
                        if blank(&url) {
                            Err("该项目没有可用封面链接".to_owned())
                        } else {
                            Ok(url)
                        }
                    },
                    None => Err("来源项目不存在".to_owned()),
                }
            },
            None => Err("来源项目不存在".to_owned()),
        }
    }

    /// Gives a book the summary of a source as its description. Answers it.
    pub fn set_source_as_description(&mut self, book_id: i64, kind: &str, ref_key: &str) -> (r: Result<
        String,
        String,
    >)
        requires
            old(self).wf(),
        ensures
            final(self).wf(),
            match named_source(sources_of(old(self)@.sources, book_id as int), kind@, ref_key@) {
                Some(s) => if s.summary is Some && !is_blank(s.summary->0) {
                    &&& r matches Ok(d) && d@ == s.summary->0
                    &&& final(self)@ == with_book(
                        old(self)@,
                        book_id as int,
                        |b: BookView| BookView { description: s.summary, ..b },
                    )
                } else {
                    r matches Err(e) && e@ == "该项目没有简介"@ && *final(self) == *old(self)
                },
                None => r matches Err(e) && e@ == "该项目没有简介"@ && *final(self) == *old(self),
            },
    {
        match self.source_named(book_id, kind, ref_key) {
            Some(row) => {
                proof {
                    row_shows(
                        row,
                        named_source(
                            sources_of(self@.sources, book_id as int),
                            kind@,
                            ref_key@,
                        )->0,
                    );
                }
                match row.summary {
                    Some(s) => {
                        if blank(&s) {
                            return Err("该项目没有简介".to_owned());
                        }
                        self.set_book_description(book_id, Some(s.as_str()));
                        Ok(s)
                    },
                    None => Err("该项目没有简介".to_owned()),
                }
            },
            None => Err("该项目没有简介".to_owned()),
        }
    }

    /// The summaries of a book's sources, where there are at least two to merge.
    pub fn source_summaries(&self, book_id: i64) -> (r: Result<Vec<String>, String>)
        ensures
            ({
                let all = summaries_of(sources_of(self@.sources, book_id as int));
                match r {
                    Ok(v) => all.len() >= 2 && strs(v@) == all,
                    Err(e) => all.len() < 2 && e@ == "简介来源不足（至少两个项目有简介）"@,
                }
            }),
    {
        let rows = self.list_sources(book_id);
        let ghost all = sources_of(self@.sources, book_id as int);
        let mut out: Vec<String> = Vec::new();
        let mut i: usize = 0;
        assert(all.take(0) =~= Seq::<SourceView>::empty());
        assert(strs(out@) =~= summaries_of(all.take(0)));
        while i < rows.len()
            invariant
                i <= rows@.len(),
                rows@.len() == all.len(),
                forall|k: int| 0 <= k < rows@.len() ==> source_is(#[trigger] rows@[k], all[k]),
                strs(out@) == summaries_of(all.take(i as int)),
            decreases rows@.len() - i,
        {
            assert(all.take(i + 1).drop_last() =~= all.take(i as int));
            assert(all.take(i + 1).last() == all[i as int]);
            proof {
                row_shows(rows@[i as int], all[i as int]);
            }
            match &rows[i].summary {
                Some(s) => {
                    if !blank(s) {
                        let t = s.as_str().to_owned();
                        proof {
                            strs_push(out@, t);
                        }
                        out.push(t);
                    }
                },
                None => {},
            }
            i += 1;
        }
        assert(all.take(rows@.len() as int) =~= all);
        assert(strs(out@).len() == out@.len());
        if out.len() < 2 {
            Err("简介来源不足（至少两个项目有简介）".to_owned())
        } else {
            Ok(out)
        }
    }

    /// Keeps the order that the user gave the sources of a kind.
    pub fn save_source_order(&mut self, book_id: i64, kind: &str, refs: &Vec<String>) -> (r: Result<
        (),
        String,
    >)
        requires
            old(self).wf(),
        ensures
            final(self).wf(),
            match r {
                Ok(_) => {
                    &&& kind@ == "clasp"@ || kind@ == "douban"@
                    &&& final(self)@ == columns_synced(
                        reordered_first(
                            old(self)@,
                            book_id as int,
                            kind@,
                            strs(refs@),
                            refs@.len(),
                        ),
                        book_id as int,
                    )
                },
                Err(e) => {
                    &&& kind@ != "clasp"@ && kind@ != "douban"@
                    &&& e@ == "无效的来源类别"@
                    &&& *final(self) == *old(self)
                },
            },
    {
        match check_kind(kind) {
            Ok(_) => {},
            Err(e) => {
                return Err(e);
            },
        }
        self.reorder_sources(book_id, kind, refs);
        self.sync_book_source_columns(book_id);
        Ok(())
    }

    /// Keeps a source as it was fetched anew, and its comments where they were asked for.
    /// Answers the files that nothing refers to any more.
    pub fn renew_source(
        &mut self,
        book_id: i64,
        kind: &str,
        ref_key: &str,
        s: &PendingSource,
        comments: bool,
    ) -> (r: Vec<String>)
        requires
            old(self).wf(),
        ensures
            final(self).wf(),
            final(self)@ == source_renewed(
                old(self)@,
                book_id as int,
                kind@,
                ref_key@,
                s@,
                comments,
            ),
            strs(r@) == refresh_orphans(
                comments_renewed(old(self)@, book_id as int, kind@, ref_key@, s@, comments),
                found_row(book_id as int, kind@, ref_key@, 0, s@),
            ),
    {
        if comments {
            let _ = self.delete_comments_for_source(book_id, ref_key);
            self.record_comments(book_id, &s.comments, &label_of(kind), ref_key);
        }
        let row = row_found(s, kind, ref_key, 0, Ghost(book_id));
        self.update_source_meta(book_id, &row)
    }
}

// ---- what the user edits ----

/// What the user made of a book.
#[derive(Debug)]
pub struct MetaEdit {
    pub title: String,
    pub author: String,
    pub tags: String,
    pub description: Option<String>,
    pub series_name: Option<String>,
    pub series_order: Option<i64>,
}

/// The description that was typed: none where it is blank.
pub open spec fn description_typed(d: Option<Seq<char>>) -> Option<Seq<char>> {
    match d {
        Some(t) => if is_blank(t) {
            None
        } else {
            Some(trim(t))
        },
        None => None,
    }
}

/// The tags of an edited book.
pub open spec fn tags_typed(tags: Seq<char>, fixed: Seq<Seq<char>>) -> Seq<Seq<char>> {
    with_all_new(tags_in(tags), fixed)
}

/// A book as it was edited.
pub open spec fn meta_edited(b: BookView, e: MetaEdit, fixed: Seq<Seq<char>>) -> BookView {
    BookView {
        title: trim(e.title@),
        author: Some(trim(e.author@)),
        tags: Some(join(tags_typed(e.tags@, fixed), ", "@)),
        description: description_typed(opt_str(e.description)),
        series_name: series_typed(opt_str(e.series_name)),
        series_order: volume_typed(opt_str(e.series_name), e.series_order),
        ..b
    }
}

/// What is written into the file of a book.
#[derive(Debug)]
pub struct EpubMeta {
    pub title: String,
    pub author: String,
    pub tags: Vec<String>,
    pub description: Option<String>,
    /// The series, with the first volume where none is known.
    pub series: Option<(String, i64)>,
    /// The name of the file in the library, where it has one.
    pub library_file: Option<String>,
}

/// The series that is written into the file of a book.
pub open spec fn series_written(name: Option<Seq<char>>, order: Option<i64>) -> Option<
    (Seq<char>, int),
> {
    match name {
        Some(n) => Some(
            (
                n,
                match order {
                    Some(o) => o as int,
                    None => 1,
                },
            ),
        ),
        None => None,
    }
}

/// The series, by its characters.
pub open spec fn series_view(s: Option<(String, i64)>) -> Option<(Seq<char>, int)> {
    match s {
        Some(p) => Some((p.0@, p.1 as int)),
        None => None,
    }
}

fn written_series(name: &Option<String>, order: Option<i64>) -> (r: Option<(String, i64)>)
    ensures
        series_view(r) == series_written(opt_str(*name), order),
{
    match name {
        Some(n) => {
            let o: i64 = match order {
                Some(o) => o,
                None => 1,
            };
            Some((n.as_str().to_owned(), o))
        },
        None => None,
    }
}

/// A name that is not empty.
pub open spec fn nonempty(o: Option<Seq<char>>) -> Option<Seq<char>> {
    match o {
        Some(s) => if s.len() > 0 {
            o
        } else {
            None
        },
        None => None,
    }
}

fn keep_nonempty(o: &Option<String>) -> (r: Option<String>)
    ensures
        opt_str(r) == nonempty(opt_str(*o)),
{
    match o {
        Some(s) => if s.as_str().is_empty() {
            None
        } else {
            Some(s.as_str().to_owned())
        },
        None => None,
    }
}

/// What is written into the file of a book that is being imported; a blank description is none.
pub fn prepared_meta(p: &PreparedImport) -> (m: EpubMeta)
    ensures
        m.title == p.title,
        m.author == p.author,
        strs(m.tags@) == strs(p.tags@),
        m.description is None <==> is_blank(p.description@),
        m.description matches Some(d) ==> d@ == p.description@,
        series_view(m.series) == series_written(opt_str(p.series_name), p.series_order),
        opt_str(m.library_file) == Some(p.library_file@),
{
    let description = if blank(&p.description) {
        None
    } else {
        Some(p.description.as_str().to_owned())
    };
    EpubMeta {
        title: p.title.clone(),
        author: p.author.clone(),
        tags: clone_strings(&p.tags),
        description,
        series: written_series(&p.series_name, p.series_order),
        library_file: Some(p.library_file.as_str().to_owned()),
    }
}

impl Catalog {
    /// What is written into the file of a book.
    pub fn epub_meta(&self, book_id: i64) -> (r: Result<EpubMeta, String>)
        requires
            self.wf(),
        ensures
            match r {
                Ok(m) => book_of(self@.books, book_id as int) matches Some(b) && {
                    &&& m.title@ == b.title
                    &&& m.author@ == coalesce(b.author, ""@)
                    &&& strs(m.tags@) == tags_in(coalesce(b.tags, ""@))
                    &&& opt_str(m.description) == b.description
                    &&& series_view(m.series) == series_written(b.series_name, b.series_order)
                    &&& opt_str(m.library_file) == nonempty(b.library_file)
                },
                Err(e) => book_of(self@.books, book_id as int) is None && e@ == "书籍不存在"@,
            },
    {
        match self.get_book_detail(book_id) {
            Some(d) => Ok(
                EpubMeta {
                    tags: split_tags(&d.tags),
                    series: written_series(&d.series_name, d.series_order),
                    library_file: keep_nonempty(&d.library_file),
                    title: d.title,
                    author: d.author,
                    description: d.description,
                },
            ),
            None => Err("书籍不存在".to_owned()),
        }
    }

    /// Keeps a book as it was edited; the fixed tags stay. Answers what is to be written into
    /// its file.
    pub fn edit_book(&mut self, id: i64, e: &MetaEdit, fixed: &Vec<String>) -> (r: Result<
        EpubMeta,
        String,
    >)
        requires
            old(self).wf(),
        ensures
            final(self).wf(),
            match r {
                Ok(m) => {
                    &&& !is_blank(e.title@)
                    &&& book_of(old(self)@.books, id as int) matches Some(b) && opt_str(
                        m.library_file,
                    ) == nonempty(b.library_file)
                    &&& final(self)@ == with_book(
                        old(self)@,
                        id as int,
                        |b: BookView| meta_edited(b, *e, strs(fixed@)),
                    )
                    &&& m.title@ == trim(e.title@)
                    &&& m.author@ == trim(e.author@)
                    &&& strs(m.tags@) == tags_typed(e.tags@, strs(fixed@))
                    &&& opt_str(m.description) == description_typed(opt_str(e.description))
                    &&& series_view(m.series) == series_written(
                        series_typed(opt_str(e.series_name)),
                        volume_typed(opt_str(e.series_name), e.series_order),
                    )
                },
                Err(t) => {
                    &&& if is_blank(e.title@) {
                        t@ == "书名不能为空"@
                    } else {
                        book_of(old(self)@.books, id as int) is None && t@ == "书籍不存在"@
                    }
                    &&& *final(self) == *old(self)
                },
            },
    {
        if blank(&e.title) {
            return Err("书名不能为空".to_owned());
        }
        let title = trimmed(&e.title);
        let author = trimmed(&e.author);
        let mut tags = split_tags(&e.tags);
        add_all_new(&mut tags, fixed);
        let description = match &e.description {
            Some(d) => if blank(d) {
                None
            } else {
                Some(trimmed(d))
            },
            None => None,
        };
        let (series_name, series_order) = typed_series(&e.series_name, e.series_order);
        let library_file = match self.get_book_detail(id) {
            Some(d) => keep_nonempty(&d.library_file),
            None => {
                return Err("书籍不存在".to_owned());
            },
        };
        let ghost c = self@;
        let text = join_tags(&tags);
        let desc = match &description {
            Some(d) => Some(d.as_str()),
            None => None,
        };
        self.update_book_meta(id, &title, &author, &text, desc);
        let name = match &series_name {
            Some(n) => Some(n.as_str()),
            None => None,
        };
        self.set_book_series(id, name, series_order);
        proof {
            let want = with_book(c, id as int, |b: BookView| meta_edited(b, *e, strs(fixed@)));
            assert(self@.books =~= want.books);
        }
        Ok(
            EpubMeta {
                series: written_series(&series_name, series_order),
                title,
                author,
                tags,
                description,
                library_file,
            },
        )
    }
}

/// The name that the file of a book gets, where it is not the one that it has.
pub fn renamed(m: &EpubMeta) -> (r: Option<String>)
    ensures
        ({
            let name = file_name(m.author@, m.title@, series_view(m.series));
            match m.library_file {
                Some(f) => if f@ == name {
                    r is None
                } else {
                    opt_str(r) == Some(name)
                },
                None => r is None,
            }
        }),
{
    let series = match &m.series {
        Some(p) => Some((p.0.as_str(), p.1)),
        None => None,
    };
    let name = to_ascii_filename(&m.author, &m.title, series);
    match &m.library_file {
        Some(f) => if same(f, &name) {
            None
        } else {
            Some(name)
        },
        None => None,
    }
}

// ---- what is offered, and what an edit leaves ----

/// The source that is meant is the first with the kind and the reference.
pub proof fn the_first_source_named_counts(
    rows: Seq<SourceView>,
    kind: Seq<char>,
    ref_key: Seq<char>,
    k: int,
)
    requires
        0 <= k <= rows.len(),
        forall|i: int|
            0 <= i < k ==> !((#[trigger] rows[i]).kind == kind && rows[i].ref_key == ref_key),
    ensures
        k == rows.len() ==> named_source(rows, kind, ref_key) is None,
        (k < rows.len() && rows[k].kind == kind && rows[k].ref_key == ref_key) ==> named_source(
            rows,
            kind,
            ref_key,
        ) == Some(rows[k]),
    decreases rows.len(),
{
    if rows.len() > 0 && k > 0 {
        let d = rows.drop_first();
        assert(forall|i: int| 0 <= i < d.len() ==> #[trigger] d[i] == rows[i + 1]);
        assert(!(rows[0].kind == kind && rows[0].ref_key == ref_key));
        assert(k < rows.len() ==> d[k - 1] == rows[k]);
        the_first_source_named_counts(d, kind, ref_key, k - 1);
    }
}

/// The cover that a source offers is that of the edition that is chosen, and its own without a
/// choice; one without a cover offers none, whatever is chosen.
pub proof fn the_chosen_edition_gives_the_cover(s: SourceView, own: Seq<char>, edition: Seq<char>)
    requires
        s.cover_url == Some(own),
    ensures
        !is_blank(edition) ==> cover_offered(Some(s), Some(edition)) == Ok::<Seq<char>, Seq<char>>(
            edition,
        ),
        is_blank(edition) ==> cover_offered(Some(s), Some(edition)) == cover_offered(Some(s), None),
        !is_blank(own) ==> cover_offered(Some(s), None) == Ok::<Seq<char>, Seq<char>>(own),
        is_blank(own) ==> cover_offered(Some(s), None) is Err,
        cover_offered(Some((SourceView { cover_url: None, ..s })), Some(edition)) is Err,
        cover_offered(None, Some(edition)) is Err,
{
}

/// The summaries that count are those of all sources that have one which is not blank, in order.
/// `m` says of which.
pub proof fn every_summary_counts(rows: Seq<SourceView>) -> (m: Seq<int>)
    ensures
        m.len() == summaries_of(rows).len(),
        forall|i: int, j: int| 0 <= i < j < m.len() ==> #[trigger] m[i] < #[trigger] m[j],
        forall|i: int|
            0 <= i < m.len() ==> 0 <= #[trigger] m[i] < rows.len() && rows[m[i]].summary == Some(
                summaries_of(rows)[i],
            ) && !is_blank(summaries_of(rows)[i]),
        forall|p: int|
            0 <= p < rows.len() && (#[trigger] rows[p]).summary is Some && !is_blank(
                rows[p].summary->0,
            ) ==> m.contains(p),
    decreases rows.len(),
{
    if rows.len() == 0 {
        Seq::empty()
    } else {
        let d = rows.drop_last();
        let k = rows.len() - 1;
        let before = every_summary_counts(d);
        let counts = rows.last().summary is Some && !is_blank(rows.last().summary->0);
        let m = if counts {
            before.push(k)
        } else {
            before
        };
        assert forall|i: int| 0 <= i < m.len() implies 0 <= #[trigger] m[i] < rows.len()
            && rows[m[i]].summary == Some(summaries_of(rows)[i]) && !is_blank(
            summaries_of(rows)[i],
        ) by {
            if i < before.len() {
                assert(m[i] == before[i]);
                assert(d[before[i]] == rows[m[i]]);
            }
        }
        assert forall|i: int, j: int| 0 <= i < j < m.len() implies #[trigger] m[i] < #[trigger] m[j] by {
            assert(m[i] == before[i]);
            if j < before.len() {
                assert(m[j] == before[j]);
            }
        }
        assert forall|p: int|
            0 <= p < rows.len() && (#[trigger] rows[p]).summary is Some && !is_blank(
                rows[p].summary->0,
            ) implies m.contains(p) by {
            if p < k {
                assert(d[p] == rows[p]);
                let q = choose|q: int| 0 <= q < before.len() && before[q] == p;
                assert(m[q] == p);
            } else {
                assert(m[before.len() as int] == p);
            }
        }
        m
    }
}

proof fn no_more_comments_than_given(
    c: CatalogView,
    book: int,
    comments: Seq<RemarkView>,
    label: Seq<char>,
    ref_key: Seq<char>,
)
    ensures
        commented(c, book, comments, label, ref_key).comments.len() <= c.comments.len()
            + comments.len(),
    decreases comments.len(),
{
    if comments.len() > 0 {
        no_more_comments_than_given(c, book, comments.drop_last(), label, ref_key);
    }
}

/// A source that is fetched anew has what was found, and keeps what was not. Where its comments
/// are asked for, those that were fetched from it before go, those that were found come behind
/// the others, and no other comment changes; else all stay.
pub proof fn a_source_is_renewed(
    c: CatalogView,
    book: int,
    kind: Seq<char>,
    s: PendingView,
    comments: bool,
    k: int,
)
    requires
        0 <= k < c.sources.len(),
    ensures
        ({
            let e = source_renewed(c, book, kind, s.ref_key, s, comments);
            let z = e.sources[k];
            let y = c.sources[k];
            let mine = y.book_id == book && y.kind == kind && y.ref_key == s.ref_key;
            let others = c.comments.filter(
                |x: CommentView|
                    !(x.book_id == book && x.is_mine == 0 && x.source_ref == Some(s.ref_key)),
            );
            &&& e.books == c.books
            &&& e.sources.len() == c.sources.len()
            &&& !mine ==> z == y
            &&& mine ==> {
                &&& z.id == y.id && z.position == y.position
                &&& z.title == (if s.title is Some { s.title } else { y.title })
                &&& z.author == (if s.author is Some { s.author } else { y.author })
                &&& z.cover_url == (if s.cover_url is Some { s.cover_url } else { y.cover_url })
                &&& z.summary == (if s.summary is Some { s.summary } else { y.summary })
                &&& z.cover_path == s.cover_path
                &&& z.editions == s.editions
                &&& s.tags is None ==> z.tags == y.tags
                &&& s.tags matches Some(t) ==> z.tags == Some(json_of_strings(t))
                &&& s.series is None ==> z.series_name is None && z.series_order is None
                &&& s.series matches Some(p) ==> z.series_name == Some(p.0) && z.series_order == p.1
            }
            &&& !comments ==> e.comments == c.comments
            &&& comments ==> {
                &&& others.is_prefix_of(e.comments)
                &&& e.comments.len() <= others.len() + s.comments.len()
                &&& e.last_comment < i64::MAX ==> forall|i: int|
                    0 <= i < s.comments.len() ==> #[trigger] has_recorded_comment(
                        e.comments,
                        book,
                        s,
                        i,
                        kind_label(kind),
                    )
            }
        }),
{
    let d = comments_renewed(c, book, kind, s.ref_key, s, comments);
    let m = found_row(book, kind, s.ref_key, 0, s);
    if comments {
        let w = comments_cleared(c, book, s.ref_key);
        comments_are_recorded(w, book, s.comments, kind_label(kind), s);
        comments_keep_books(w, book, s.comments, kind_label(kind), s.ref_key);
        no_more_comments_than_given(w, book, s.comments, kind_label(kind), s.ref_key);
    }
    assert(d.sources == c.sources);
    a_refreshed_source_keeps_what_was_not_found(d, m, k);
    refreshing_adds_no_comment(d, m);
}

/// A book that was edited has the title, the author, the description and the series that were
/// typed, without white space at their ends; a blank description or series is none, and a series
/// without a volume begins with the first. Its tags are those that were typed, then the fixed
/// ones. All else of it stays. `tags` lists its tags.
pub proof fn what_an_edit_leaves(b: BookView, e: MetaEdit, fixed: Seq<Seq<char>>) -> (tags: Seq<
    Seq<char>,
>)
    ensures
        ({
            let z = meta_edited(b, e, fixed);
            let d = opt_str(e.description);
            let s = opt_str(e.series_name);
            let named = s is Some && !is_blank(s->0);
            &&& z == (BookView {
                title: trim(e.title@),
                author: Some(trim(e.author@)),
                tags: Some(join(tags, ", "@)),
                description: z.description,
                series_name: z.series_name,
                series_order: z.series_order,
                ..b
            })
            &&& d is None || is_blank(d->0) ==> z.description is None
            &&& d is Some && !is_blank(d->0) ==> z.description == Some(trim(d->0))
            &&& !named ==> z.series_name is None && z.series_order is None
            &&& named ==> z.series_name == Some(trim(s->0))
            &&& named && e.series_order is Some ==> z.series_order == e.series_order
            &&& named && e.series_order is None ==> z.series_order == Some(1i64)
            &&& tags_in(e.tags@).is_prefix_of(tags)
            &&& forall|t: Seq<char>|
                tags.contains(t) <==> tags_in(e.tags@).contains(t) || fixed.contains(t)
        }),
{
    let tags = with_all_new(tags_in(e.tags@), fixed);
    assert forall|t: Seq<char>|
        tags.contains(t) <==> tags_in(e.tags@).contains(t) || fixed.contains(t) by {
        union_holds_both(tags_in(e.tags@), fixed, t);
    }
    union_holds_both(tags_in(e.tags@), fixed, Seq::empty());
    tags
}

/// The series that is written into a file is that of the book; its volume is the first where
/// none is known.
pub proof fn which_series_is_written(name: Seq<char>, order: Option<i64>)
    ensures
        series_written(None, order) is None,
        order matches Some(o) ==> series_written(Some(name), order) == Some((name, o as int)),
        order is None ==> series_written(Some(name), order) == Some((name, 1int)),
{
}

} // verus!
