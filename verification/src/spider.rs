//! Books and comments as other sites give them.
use vstd::prelude::*;
use vstd::string::*;

use crate::json::{
    array_of_json, int_of_json, list_of_json, read_array, read_int, read_list, read_text,
    text_of_json,
};
use crate::markup::{
    elements, elements_in, found_views, opt_found, selected, selected_in, steps_view, Found,
    FoundView, Step,
};
use crate::patterns::{first_group, first_match};
use crate::seqs::{
    arrange, arranged_is_sorted, filter_from, filter_none, filter_places, filter_step, picked,
    sorted_by, sorted_places,
};
use crate::sorting::{key_views, order_is_stable_sort, order_of, KeyView, SortKey};
use crate::text::{
    blank, chars_of, clone_opt, clone_strings, dec_i64, dec_int, find_chars, find_from,
    find_from_is_first, has_string, is_blank, is_digit, join, joined, occurs_at, opt_str, parse_i64,
    parse_int, right_stripped, same, split, split_on, stands_at, starts_with, string_of_range,
    strip_right, strs, strs_push, trim, trimmed,
};
use crate::utils::{count_han, han_count, normalize_ws, tidied, tidy, ws_normal};
use crate::encoding::{coded, encode};

verus! {

// ---- answers of the book site ----

/// The answer to a search for suggestions.
#[derive(Debug)]
pub struct ClaspSuggestionResp {
    pub books: Vec<ClaspBookSuggestion>,
}

/// The answer to a search by pages.
#[derive(Debug)]
pub struct ClaspBooksResp {
    pub items: Vec<ClaspBookItem>,
    pub pagination: Option<ClaspPagination>,
    /// `fuzzy` where nothing matches exactly.
    pub search_mode: Option<String>,
}

/// Where in the pages of an answer one stands.
#[derive(Debug)]
pub struct ClaspPagination {
    pub page: i64,
    pub page_size: i64,
    pub total: i64,
    pub total_pages: i64,
}

#[derive(Debug)]
pub struct ClaspAuthor {
    pub name: String,
}

#[derive(Debug)]
pub struct ClaspTag {
    pub name: String,
}

/// A book in the answer to a search by pages.
#[derive(Debug)]
pub struct ClaspBookItem {
    pub id: String,
    pub title: String,
    pub author: Option<ClaspAuthor>,
    pub authors: Vec<ClaspAuthor>,
    pub cover_url: Option<String>,
    pub summary_no_spoiler: Option<String>,
    pub tags: Vec<ClaspTag>,
}

/// A book that a search suggests.
#[derive(Debug)]
pub struct ClaspBookSuggestion {
    pub title: String,
    pub author_name: String,
    pub id: String,
    pub tags: Vec<String>,
    pub cover_url: Option<String>,
    pub summary: Option<String>,
    pub douban_url: Option<String>,
}

/// The details of a book.
#[derive(Debug)]
pub struct ClaspBookDetail {
    pub title: Option<String>,
    pub author: Option<ClaspAuthor>,
    pub tags: Vec<ClaspTag>,
    pub summary_no_spoiler: Option<String>,
    pub cover_url: Option<String>,
    pub series: Option<ClaspSeriesInfo>,
    pub editions: Vec<ClaspEdition>,
}

/// The series of a book.
#[derive(Debug)]
pub struct ClaspSeriesInfo {
    pub name: Option<String>,
    pub order: Option<i64>,
}

/// An edition of a book.
#[derive(Debug)]
pub struct ClaspEdition {
    pub is_primary: bool,
    pub douban_url: Option<String>,
    pub cover_url: Option<String>,
    pub publisher: Option<String>,
    pub imprint: Option<ClaspImprint>,
    pub binding: Option<String>,
    pub language: Option<String>,
    pub published_at: Option<String>,
    pub translator: Option<String>,
}

#[derive(Debug)]
pub struct ClaspImprint {
    pub name: Option<String>,
    pub publisher_name: Option<String>,
}

/// A book that a search suggests, by its characters.
pub struct SuggestionView {
    pub title: Seq<char>,
    pub author_name: Seq<char>,
    pub id: Seq<char>,
    pub tags: Seq<Seq<char>>,
    pub cover_url: Option<Seq<char>>,
    pub summary: Option<Seq<char>>,
    pub douban_url: Option<Seq<char>>,
}

impl View for ClaspBookSuggestion {
    type V = SuggestionView;

    open spec fn view(&self) -> SuggestionView {
        SuggestionView {
            title: self.title@,
            author_name: self.author_name@,
            id: self.id@,
            tags: strs(self.tags@),
            cover_url: opt_str(self.cover_url),
            summary: opt_str(self.summary),
            douban_url: opt_str(self.douban_url),
        }
    }
}

/// A copy of a suggestion.
pub fn copy_suggestion(s: &ClaspBookSuggestion) -> (r: ClaspBookSuggestion)
    ensures
        r@ == s@,
{
    ClaspBookSuggestion {
        title: s.title.as_str().to_owned(),
        author_name: s.author_name.as_str().to_owned(),
        id: s.id.as_str().to_owned(),
        tags: clone_strings(&s.tags),
        cover_url: clone_opt(&s.cover_url),
        summary: clone_opt(&s.summary),
        douban_url: clone_opt(&s.douban_url),
    }
}

/// What is known of a book from one or more suggestions.
#[derive(Debug)]
pub struct ClaspBookMeta {
    pub title: String,
    pub author: String,
    pub tags: Vec<String>,
    pub clasp_ids: Vec<String>,
    pub douban_urls: Vec<String>,
    pub series_name: Option<String>,
    pub series_order: Option<i64>,
}

/// A comment on a book.
#[derive(Debug)]
pub struct Comment {
    pub rating: Option<i32>,
    pub content: String,
    pub usefulness: i32,
}

/// A comment on a book, by its characters.
pub struct RemarkView {
    pub rating: Option<i32>,
    pub content: Seq<char>,
    pub usefulness: int,
}

impl View for Comment {
    type V = RemarkView;

    open spec fn view(&self) -> RemarkView {
        RemarkView {
            rating: self.rating,
            content: self.content@,
            usefulness: self.usefulness as int,
        }
    }
}

/// The views of a list of comments.
pub open spec fn remarks(v: Seq<Comment>) -> Seq<RemarkView> {
    v.map_values(|c: Comment| c@)
}

/// What is known of a book from its page on the review site.
#[derive(Debug)]
pub struct DoubanBookMeta {
    pub title: Option<String>,
    pub author: Option<String>,
    pub cover_url: Option<String>,
    pub summary: Option<String>,
}

// ---- addresses ----

/// The number of a book on the review site that the address of a cover holds.
pub open spec fn douban_id_in(cover_url: Seq<char>) -> Option<Seq<char>> {
    first_group("douban-(\\d+)"@, cover_url)
}

/// The number of a book on the review site that the address of a cover holds.
pub fn extract_douban_id_from_cover(cover_url: &str) -> (r: Option<String>)
    ensures
        opt_str(r) == douban_id_in(cover_url@),
{
    first_match("douban-(\\d+)", cover_url)
}

/// The page of a book on the review site.
pub open spec fn book_url(id: Seq<char>) -> Seq<char> {
    "https://book.douban.com/subject/"@ + id + "/"@
}

/// The page of a book on the review site.
pub fn douban_book_url(subject_id: &str) -> (r: String)
    ensures
        r@ == book_url(subject_id@),
{
    "https://book.douban.com/subject/".to_owned().concat(subject_id).concat("/")
}

/// The page of a book's comments on the review site.
pub fn douban_comments_url(book_url: &str) -> (r: String)
    ensures
        r@ == strip_right(book_url@, '/') + "/comments/"@,
{
    right_stripped(book_url, '/').concat("/comments/")
}

/// The page on the review site that the address of a cover leads to.
pub open spec fn cover_book_url(cover_url: Option<Seq<char>>) -> Option<Seq<char>> {
    match cover_url {
        Some(u) => match douban_id_in(u) {
            Some(id) => Some(book_url(id)),
            None => None,
        },
        None => None,
    }
}

/// The page on the review site that the address of a cover leads to.
pub fn url_of_cover(cover_url: &Option<String>) -> (r: Option<String>)
    ensures
        opt_str(r) == cover_book_url(opt_str(*cover_url)),
{
    match cover_url {
        Some(u) => match extract_douban_id_from_cover(u) {
            Some(id) => Some(douban_book_url(&id)),
            None => None,
        },
        None => None,
    }
}

/// The address of the details of a book.
pub fn detail_url(clasp_id: &str) -> (r: String)
    ensures
        r@ == "https://claspclub.com/api/v1/books/"@ + clasp_id@,
{
    "https://claspclub.com/api/v1/books/".to_owned().concat(clasp_id)
}

/// The address of the comments on a book.
pub fn reviews_url(clasp_id: &str) -> (r: String)
    ensures
        r@ == "https://claspclub.com/api/v1/books/"@ + clasp_id@
            + "/comments?area=all&page=1&pageSize=12&sort=popular"@,
{
    "https://claspclub.com/api/v1/books/".to_owned().concat(clasp_id).concat(
        "/comments?area=all&page=1&pageSize=12&sort=popular",
    )
}

// ---- books ----

/// The names of the tags.
pub open spec fn tag_seq(tags: Seq<ClaspTag>) -> Seq<Seq<char>> {
    tags.map_values(|t: ClaspTag| t.name@)
}

fn tag_texts(tags: &Vec<ClaspTag>) -> (r: Vec<String>)
    ensures
        strs(r@) == tag_seq(tags@),
{
    let mut out: Vec<String> = Vec::new();
    let mut i: usize = 0;
    assert(strs(out@) =~= tag_seq(tags@.take(0)));
    while i < tags.len()
        invariant
            i <= tags@.len(),
            strs(out@) == tag_seq(tags@.take(i as int)),
        decreases tags@.len() - i,
    {
        let t = tags[i].name.as_str().to_owned();
        proof {
            strs_push(out@, t);
        }
        out.push(t);
        i += 1;
        assert(strs(out@) =~= tag_seq(tags@.take(i as int)));
    }
    assert(tags@.take(tags@.len() as int) =~= tags@);
    out
}

/// The names of tags that are not blank, without white space at their ends.
pub fn tag_names_of(tags: &Vec<ClaspTag>) -> (r: Vec<String>)
    ensures
        strs(r@) == tidy(tag_seq(tags@)),
{
    tidied(&tag_texts(tags))
}

impl ClaspBookItem {
    /// The author: the first of the list, else the single one; nothing where they are blank.
    pub open spec fn author_text(self) -> Seq<char> {
        if self.authors@.len() > 0 && !is_blank(self.authors@[0].name@) {
            trim(self.authors@[0].name@)
        } else if self.author is Some {
            trim(self.author->0.name@)
        } else {
            Seq::empty()
        }
    }

    /// The author: the first of the list, else the single one; nothing where they are blank.
    pub fn author_name(&self) -> (r: String)
        ensures
            r@ == self.author_text(),
    {
        if self.authors.len() > 0 {
            let a = trimmed(&self.authors[0].name);
            if !a.as_str().is_empty() {
                return a;
            }
        }
        match &self.author {
            Some(a) => trimmed(&a.name),
            None => String::new(),
        }
    }

    /// The names of its tags.
    pub fn tag_names(&self) -> (r: Vec<String>)
        ensures
            strs(r@) == tidy(tag_seq(self.tags@)),
    {
        tag_names_of(&self.tags)
    }

    /// The suggestion that it amounts to; its page on the review site is taken from its
    /// cover.
    pub fn suggestion(&self) -> (r: ClaspBookSuggestion)
        ensures
            r.title@ == trim(self.title@),
            r.author_name@ == self.author_text(),
            r.id == self.id,
            strs(r.tags@) == tidy(tag_seq(self.tags@)),
            r.cover_url == self.cover_url,
            opt_str(r.summary) == (match self.summary_no_spoiler {
                Some(s) => if is_blank(s@) {
                    None
                } else {
                    Some(s@)
                },
                None => None,
            }),
            opt_str(r.douban_url) == cover_book_url(opt_str(self.cover_url)),
    {
        let summary = match clone_opt(&self.summary_no_spoiler) {
            Some(s) => if blank(&s) {
                None
            } else {
                Some(s)
            },
            None => None,
        };
        ClaspBookSuggestion {
            title: trimmed(&self.title),
            author_name: self.author_name(),
            id: self.id.clone(),
            tags: self.tag_names(),
            cover_url: clone_opt(&self.cover_url),
            summary,
            douban_url: url_of_cover(&self.cover_url),
        }
    }
}

/// The first page on the review site that an edition has.
pub open spec fn first_edition_url(eds: Seq<ClaspEdition>) -> Option<Seq<char>>
    decreases eds.len(),
{
    if eds.len() == 0 {
        None
    } else if eds[0].douban_url is Some {
        opt_str(eds[0].douban_url)
    } else {
        first_edition_url(eds.drop_first())
    }
}

/// The page on the review site of the first main edition.
pub open spec fn main_edition_url(eds: Seq<ClaspEdition>) -> Option<Seq<char>>
    decreases eds.len(),
{
    if eds.len() == 0 {
        None
    } else if eds[0].is_primary {
        opt_str(eds[0].douban_url)
    } else {
        main_edition_url(eds.drop_first())
    }
}

impl ClaspBookDetail {
    /// The page of the main edition on the review site, else of the first that has one.
    pub fn primary_douban_url(&self) -> (r: Option<String>)
        ensures
            opt_str(r) == (match main_edition_url(self.editions@) {
                Some(u) => Some(u),
                None => first_edition_url(self.editions@),
            }),
    {
        let mut i: usize = 0;
        assert(self.editions@.skip(0) =~= self.editions@);
        let mut found = false;
        while i < self.editions.len() && !found
            invariant
                i <= self.editions@.len(),
                found ==> main_edition_url(self.editions@) is None,
                !found ==> main_edition_url(self.editions@) == main_edition_url(
                    self.editions@.skip(i as int),
                ),
            decreases self.editions@.len() - i,
        {
            let ghost rest = self.editions@.skip(i as int);
            assert(rest[0] == self.editions@[i as int]);
            assert(rest.drop_first() =~= self.editions@.skip(i + 1));
            if self.editions[i].is_primary {
                if self.editions[i].douban_url.is_some() {
                    return clone_opt(&self.editions[i].douban_url);
                }
                found = true;
            }
            i += 1;
        }
        let mut k: usize = 0;
        while k < self.editions.len()
            invariant
                k <= self.editions@.len(),
                main_edition_url(self.editions@) is None,
                first_edition_url(self.editions@) == first_edition_url(
                    self.editions@.skip(k as int),
                ),
            decreases self.editions@.len() - k,
        {
            let ghost rest = self.editions@.skip(k as int);
            assert(rest[0] == self.editions@[k as int]);
            assert(rest.drop_first() =~= self.editions@.skip(k + 1));
            if self.editions[k].douban_url.is_some() {
                return clone_opt(&self.editions[k].douban_url);
            }
            k += 1;
        }
        None
    }
}

/// `acc` with `x` behind it, where it does not hold it.
pub open spec fn with_new(acc: Seq<Seq<char>>, x: Seq<char>) -> Seq<Seq<char>> {
    if acc.contains(x) {
        acc
    } else {
        acc.push(x)
    }
}

/// `acc` with each of `xs` that it does not hold behind it.
pub open spec fn with_all_new(acc: Seq<Seq<char>>, xs: Seq<Seq<char>>) -> Seq<Seq<char>>
    decreases xs.len(),
{
    if xs.len() == 0 {
        acc
    } else {
        with_new(with_all_new(acc, xs.drop_last()), xs.last())
    }
}

/// Adds `x` where the list does not hold it.
pub fn add_new(acc: &mut Vec<String>, x: &str)
    ensures
        strs(final(acc)@) == with_new(strs(old(acc)@), x@),
{
    if !has_string(acc, x) {
        let s = x.to_owned();
        proof {
            strs_push(acc@, s);
        }
        acc.push(s);
    }
}

/// Adds each of `xs` that the list does not hold.
pub fn add_all_new(acc: &mut Vec<String>, xs: &Vec<String>)
    ensures
        strs(final(acc)@) == with_all_new(strs(old(acc)@), strs(xs@)),
{
    let ghost start = strs(acc@);
    let ghost all = strs(xs@);
    let mut i: usize = 0;
    assert(all.take(0) =~= Seq::<Seq<char>>::empty());
    while i < xs.len()
        invariant
            i <= xs@.len(),
            all == strs(xs@),
            strs(acc@) == with_all_new(start, all.take(i as int)),
        decreases xs@.len() - i,
    {
        assert(all.take(i + 1).drop_last() =~= all.take(i as int));
        assert(all.take(i + 1).last() == xs@[i as int]@);
        add_new(acc, &xs[i]);
        i += 1;
    }
    assert(all.take(xs@.len() as int) =~= all);
}

/// The tags of the suggestions, each once.
pub open spec fn tags_of(items: Seq<ClaspBookSuggestion>) -> Seq<Seq<char>>
    decreases items.len(),
{
    if items.len() == 0 {
        Seq::empty()
    } else {
        with_all_new(tags_of(items.drop_last()), strs(items.last().tags@))
    }
}

/// The pages on the review site that the covers of the suggestions lead to, each once.
pub open spec fn urls_of(items: Seq<ClaspBookSuggestion>) -> Seq<Seq<char>>
    decreases items.len(),
{
    if items.len() == 0 {
        Seq::empty()
    } else {
        match cover_book_url(opt_str(items.last().cover_url)) {
            Some(u) => with_new(urls_of(items.drop_last()), u),
            None => urls_of(items.drop_last()),
        }
    }
}

/// The authors of the suggestions, each once.
pub open spec fn authors_of(items: Seq<ClaspBookSuggestion>) -> Seq<Seq<char>>
    decreases items.len(),
{
    if items.len() == 0 {
        Seq::empty()
    } else if is_blank(items.last().author_name@) {
        authors_of(items.drop_last())
    } else {
        with_new(authors_of(items.drop_last()), trim(items.last().author_name@))
    }
}

/// The ids of the suggestions.
pub open spec fn ids_of(items: Seq<ClaspBookSuggestion>) -> Seq<Seq<char>> {
    items.map_values(|s: ClaspBookSuggestion| s.id@)
}

impl ClaspBookMeta {
    /// What suggestions say of one book: the title of the first, all authors, tags, ids and
    /// pages, and no series.
    pub fn from_suggestions(items: &Vec<ClaspBookSuggestion>) -> (r: ClaspBookMeta)
        ensures
            r.title@ == (if items@.len() > 0 {
                items@[0].title@
            } else {
                Seq::empty()
            }),
            r.author@ == join(authors_of(items@), "、"@),
            strs(r.tags@) == tags_of(items@),
            strs(r.clasp_ids@) == ids_of(items@),
            strs(r.douban_urls@) == urls_of(items@),
            r.series_name is None,
            r.series_order is None,
    {
        let mut tags: Vec<String> = Vec::new();
        let mut urls: Vec<String> = Vec::new();
        let mut authors: Vec<String> = Vec::new();
        let mut ids: Vec<String> = Vec::new();
        let mut i: usize = 0;
        let ghost none = items@.take(0);
        assert(none =~= Seq::<ClaspBookSuggestion>::empty());
        assert(strs(tags@) =~= tags_of(none));
        assert(strs(urls@) =~= urls_of(none));
        assert(strs(authors@) =~= authors_of(none));
        assert(strs(ids@) =~= ids_of(none));
        while i < items.len()
            invariant
                i <= items@.len(),
                strs(tags@) == tags_of(items@.take(i as int)),
                strs(urls@) == urls_of(items@.take(i as int)),
                strs(authors@) == authors_of(items@.take(i as int)),
                strs(ids@) == ids_of(items@.take(i as int)),
            decreases items@.len() - i,
        {
            let s = &items[i];
            let ghost now = items@.take(i + 1);
            assert(now.drop_last() =~= items@.take(i as int));
            assert(now.last() == *s);
            add_all_new(&mut tags, &s.tags);
            match url_of_cover(&s.cover_url) {
                Some(u) => {
                    add_new(&mut urls, &u);
                },
                None => {},
            }
            let a = trimmed(&s.author_name);
            if !a.as_str().is_empty() {
                add_new(&mut authors, &a);
            }
            let id = s.id.as_str().to_owned();
            proof {
                strs_push(ids@, id);
            }
            ids.push(id);
            i += 1;
            assert(strs(ids@) =~= ids_of(now));
        }
        assert(items@.take(items@.len() as int) =~= items@);
        let title = if items.len() > 0 {
            items[0].title.as_str().to_owned()
        } else {
            String::new()
        };
        ClaspBookMeta {
            title,
            author: joined(&authors, "、"),
            tags,
            clasp_ids: ids,
            douban_urls: urls,
            series_name: None,
            series_order: None,
        }
    }
}

/// Where what is added is distinct from what is held, the list holds nothing twice.
pub proof fn union_is_distinct(acc: Seq<Seq<char>>, xs: Seq<Seq<char>>)
    requires
        acc.no_duplicates(),
    ensures
        with_all_new(acc, xs).no_duplicates(),
        forall|x: Seq<char>|
            with_all_new(acc, xs).contains(x) <==> acc.contains(x) || xs.contains(x),
    decreases xs.len(),
{
    if xs.len() > 0 {
        let init = xs.drop_last();
        union_is_distinct(acc, init);
        let before = with_all_new(acc, init);
        let now = with_all_new(acc, xs);
        assert forall|x: Seq<char>|
            now.contains(x) <==> acc.contains(x) || xs.contains(x) by {
            if now.contains(x) {
                let i = choose|i: int| 0 <= i < now.len() && now[i] == x;
                if i < before.len() {
                    assert(before[i] == x);
                    assert(before.contains(x));
                    if init.contains(x) {
                        let k = choose|k: int| 0 <= k < init.len() && init[k] == x;
                        assert(xs[k] == x);
                    }
                } else {
                    assert(xs[xs.len() - 1] == x);
                }
            }
            if acc.contains(x) || xs.contains(x) {
                if before.contains(x) {
                    let i = choose|i: int| 0 <= i < before.len() && before[i] == x;
                    assert(now[i] == x);
                } else {
                    let k = choose|k: int| 0 <= k < xs.len() && xs[k] == x;
                    if k < init.len() {
                        assert(init[k] == x);
                        assert(init.contains(x));
                    }
                    assert(now[now.len() - 1] == x);
                }
            }
        }
    }
}

/// What is added stands behind what is held, which stays as it is, in the order in which it
/// is first given.
pub proof fn union_keeps_the_order(acc: Seq<Seq<char>>, xs: Seq<Seq<char>>)
    requires
        acc.no_duplicates(),
    ensures
        acc.is_prefix_of(with_all_new(acc, xs)),
        forall|b: int|
            acc.len() <= b < with_all_new(acc, xs).len() ==> !acc.contains(
                #[trigger] with_all_new(acc, xs)[b],
            ),
        forall|a: int, b: int|
            acc.len() <= a < b < with_all_new(acc, xs).len() ==> is_given_first(
                xs,
                #[trigger] with_all_new(acc, xs)[a],
                #[trigger] with_all_new(acc, xs)[b],
            ),
    decreases xs.len(),
{
    let now = with_all_new(acc, xs);
    if xs.len() > 0 {
        let init = xs.drop_last();
        union_keeps_the_order(acc, init);
        union_is_distinct(acc, init);
        union_is_distinct(acc, xs);
        let before = with_all_new(acc, init);
        assert forall|b: int| acc.len() <= b < now.len() implies !acc.contains(
            #[trigger] now[b],
        ) by {
            if b < before.len() {
                assert(now[b] == before[b]);
            } else if acc.contains(now[b]) {
                assert(before.contains(now[b]));
            }
        }
        assert forall|a: int, b: int| acc.len() <= a < b < now.len() implies is_given_first(
            xs,
            #[trigger] now[a],
            #[trigger] now[b],
        ) by {
            assert(now[a] == before[a]);
            if b < before.len() {
                assert(now[b] == before[b]);
                assert(is_given_first(init, before[a], before[b]));
                let k = choose|k: int|
                    0 <= k < init.len() && #[trigger] init[k] == before[a] && forall|m: int|
                        0 <= m < init.len() && #[trigger] init[m] == before[b] ==> k < m;
                assert(xs[k] == now[a]);
                assert forall|m: int| 0 <= m < xs.len() && #[trigger] xs[m] == now[b] implies k
                    < m by {
                    if m < init.len() {
                        assert(init[m] == xs[m]);
                    }
                }
            } else {
                assert(before.contains(before[a]));
                assert(!acc.contains(before[a]));
                assert(init.contains(before[a]));
                let k = choose|k: int| 0 <= k < init.len() && init[k] == before[a];
                assert(xs[k] == now[a]);
                assert forall|m: int| 0 <= m < xs.len() && #[trigger] xs[m] == now[b] implies k
                    < m by {
                    if m < init.len() {
                        assert(init[m] == xs[m]);
                        assert(init.contains(now[b]));
                        assert(before.contains(now[b]));
                        assert(!before.contains(xs.last()));
                    }
                }
            }
        }
    }
}

/// Whether `x` is given before `y` is.
pub open spec fn is_given_first(xs: Seq<Seq<char>>, x: Seq<char>, y: Seq<char>) -> bool {
    exists|k: int|
        0 <= k < xs.len() && #[trigger] xs[k] == x && forall|m: int|
            0 <= m < xs.len() && #[trigger] xs[m] == y ==> k < m
}

/// Whether `x` stands at place `k` of list `i`.
pub open spec fn is_at(lists: Seq<Seq<Seq<char>>>, i: int, k: int, x: Seq<char>) -> bool {
    0 <= i < lists.len() && 0 <= k < lists[i].len() && lists[i][k] == x
}

/// What the lists hold, each once.
pub open spec fn united(lists: Seq<Seq<Seq<char>>>) -> Seq<Seq<char>>
    decreases lists.len(),
{
    if lists.len() == 0 {
        Seq::empty()
    } else {
        with_all_new(united(lists.drop_last()), lists.last())
    }
}

/// Lists that are united give what any of them holds, nothing else and nothing twice, in the
/// order in which it is first met, list by list.
pub proof fn united_lists(lists: Seq<Seq<Seq<char>>>)
    ensures
        united(lists).no_duplicates(),
        forall|i: int, k: int, x: Seq<char>| #[trigger]
            is_at(lists, i, k, x) ==> united(lists).contains(x),
        forall|x: Seq<char>|
            #![trigger united(lists).contains(x)]
            united(lists).contains(x) ==> exists|i: int, k: int| is_at(lists, i, k, x),
        forall|a: int, b: int|
            0 <= a < b < united(lists).len() ==> is_met_first(
                lists,
                #[trigger] united(lists)[a],
                #[trigger] united(lists)[b],
            ),
    decreases lists.len(),
{
    let now = united(lists);
    if lists.len() == 0 {
    } else {
        let init = lists.drop_last();
        let n = lists.len() - 1;
        united_lists(init);
        let before = united(init);
        union_is_distinct(before, lists.last());
        union_keeps_the_order(before, lists.last());
        assert forall|i: int, k: int, x: Seq<char>| #[trigger]
            is_at(lists, i, k, x) implies now.contains(x) by {
            if i < n {
                assert(is_at(init, i, k, x));
            } else {
                assert(lists.last().contains(x));
            }
        }
        assert forall|x: Seq<char>| #[trigger] now.contains(x) implies exists|i: int, k: int|
            is_at(lists, i, k, x) by {
            if before.contains(x) {
                let (i, k) = choose|i: int, k: int| is_at(init, i, k, x);
                assert(is_at(lists, i, k, x));
            } else {
                let k = choose|k: int| 0 <= k < lists.last().len() && lists.last()[k] == x;
                assert(is_at(lists, n, k, x));
            }
        }
        assert forall|a: int, b: int| 0 <= a < b < now.len() implies is_met_first(
            lists,
            #[trigger] now[a],
            #[trigger] now[b],
        ) by {
            if a < before.len() {
                assert(now[a] == before[a]);
                assert(before.contains(before[a]));
                if b < before.len() {
                    assert(now[b] == before[b]);
                    assert(is_met_first(init, before[a], before[b]));
                    let (i, k) = choose|i: int, k: int| #[trigger]
                        is_at(init, i, k, before[a]) && forall|j: int, m: int| #[trigger]
                            is_at(init, j, m, before[b]) ==> i < j || i == j && k < m;
                    assert(is_at(lists, i, k, now[a]));
                    assert forall|j: int, m: int| #[trigger] is_at(lists, j, m, now[b]) implies i
                        < j || i == j && k < m by {
                        if j < n {
                            assert(is_at(init, j, m, now[b]));
                        }
                    }
                } else {
                    let (i, k) = choose|i: int, k: int| is_at(init, i, k, before[a]);
                    assert(is_at(lists, i, k, now[a]));
                    assert forall|j: int, m: int| #[trigger] is_at(lists, j, m, now[b]) implies i
                        < j || i == j && k < m by {
                        if j < n {
                            assert(is_at(init, j, m, now[b]));
                            assert(before.contains(now[b]));
                        }
                    }
                }
            } else {
                let last = lists.last();
                assert(is_given_first(last, now[a], now[b]));
                let k = choose|k: int|
                    0 <= k < last.len() && #[trigger] last[k] == now[a] && forall|m: int|
                        0 <= m < last.len() && #[trigger] last[m] == now[b] ==> k < m;
                assert(is_at(lists, n, k, now[a]));
                assert forall|j: int, m: int| #[trigger] is_at(lists, j, m, now[b]) implies n < j
                    || n == j && k < m by {
                    if j < n {
                        assert(is_at(init, j, m, now[b]));
                        assert(before.contains(now[b]));
                    } else {
                        assert(last[m] == now[b]);
                    }
                }
            }
        }
    }
}

/// Whether `x` is met before `y` is, list by list.
pub open spec fn is_met_first(lists: Seq<Seq<Seq<char>>>, x: Seq<char>, y: Seq<char>) -> bool {
    exists|i: int, k: int| #[trigger]
        is_at(lists, i, k, x) && forall|j: int, m: int| #[trigger]
            is_at(lists, j, m, y) ==> i < j || i == j && k < m
}

/// The tags of suggestions are named once each.
pub proof fn tags_are_distinct(items: Seq<ClaspBookSuggestion>)
    ensures
        tags_of(items).no_duplicates(),
    decreases items.len(),
{
    if items.len() > 0 {
        tags_are_distinct(items.drop_last());
        union_is_distinct(tags_of(items.drop_last()), strs(items.last().tags@));
    }
}

// ---- which comments to keep ----

/// At most the first five.
pub open spec fn first_five<A>(s: Seq<A>) -> Seq<A> {
    if s.len() > 5 {
        s.take(5)
    } else {
        s
    }
}

/// Whether a comment says enough.
pub open spec fn says_enough(c: RemarkView) -> bool {
    han_count(c.content) >= 15
}

/// The most useful first.
pub open spec fn by_usefulness(c: RemarkView) -> KeyView {
    KeyView { text: Seq::empty(), a: -c.usefulness, b: 0 }
}

/// The longest first.
pub open spec fn by_length(c: RemarkView) -> KeyView {
    KeyView { text: Seq::empty(), a: -(han_count(c.content) as int), b: 0 }
}

/// The five most useful of the comments that say enough, where there are five; else the
/// five longest of all.
pub open spec fn best_remarks(all: Seq<RemarkView>) -> Seq<RemarkView> {
    let good = all.filter(|c: RemarkView| says_enough(c));
    if good.len() >= 5 {
        first_five(sorted_by(good, |c: RemarkView| by_usefulness(c)))
    } else {
        first_five(sorted_by(all, |c: RemarkView| by_length(c)))
    }
}

fn copy_remark(c: &Comment) -> (r: Comment)
    ensures
        r@ == c@,
{
    Comment { rating: c.rating, content: c.content.as_str().to_owned(), usefulness: c.usefulness }
}

fn top_five(
    raw: &Vec<Comment>,
    sel: &Vec<usize>,
    keys: &Vec<SortKey>,
    Ghost(key): Ghost<spec_fn(RemarkView) -> KeyView>,
) -> (r: Vec<Comment>)
    requires
        sel@.len() == keys@.len(),
        forall|k: int| 0 <= k < sel@.len() ==> (#[trigger] sel@[k]) < raw@.len(),
        key_views(keys@) == picked(remarks(raw@), sel@).map_values(key),
    ensures
        remarks(r@) == first_five(sorted_by(picked(remarks(raw@), sel@), key)),
{
    let ghost all = remarks(raw@);
    let order = arrange(sel, keys);
    proof {
        arranged_is_sorted(all, sel@, key_views(keys@), key, order@);
    }
    let ghost want = picked(all, order@);
    let mut out: Vec<Comment> = Vec::new();
    let mut j: usize = 0;
    assert(remarks(out@) =~= want.take(0));
    while j < order.len() && j < 5
        invariant
            j <= order@.len(),
            j <= 5,
            all == remarks(raw@),
            want == picked(all, order@),
            forall|k: int| 0 <= k < sel@.len() ==> (#[trigger] sel@[k]) < raw@.len(),
            forall|k: int| 0 <= k < order@.len() ==> sel@.contains(#[trigger] order@[k]),
            remarks(out@) == want.take(j as int),
        decreases order@.len() - j,
    {
        assert(sel@.contains(order@[j as int]));
        let c = copy_remark(&raw[order[j]]);
        let ghost was = out@;
        out.push(c);
        proof {
            assert(remarks(out@) =~= remarks(was).push(c@));
            assert(want[j as int] == all[order@[j as int] as int]);
            assert(want.take(j + 1) =~= want.take(j as int).push(want[j as int]));
        }
        j += 1;
    }
    assert(want.len() == order@.len());
    assert(want.take(j as int) =~= first_five(want));
    out
}

/// The places of the comments that say enough, and what they are sorted by.
fn pick_enough(raw: &Vec<Comment>) -> (r: (Vec<usize>, Vec<SortKey>))
    ensures
        r.0@.len() == r.1@.len(),
        forall|k: int| 0 <= k < r.0@.len() ==> (#[trigger] r.0@[k]) < raw@.len(),
        picked(remarks(raw@), r.0@) == remarks(raw@).filter(|c: RemarkView| says_enough(c)),
        key_views(r.1@) == picked(remarks(raw@), r.0@).map_values(
            |c: RemarkView| by_usefulness(c),
        ),
{
    let ghost all = remarks(raw@);
    let ghost f = |c: RemarkView| says_enough(c);
    let ghost key = |c: RemarkView| by_usefulness(c);
    let mut sel: Vec<usize> = Vec::new();
    let mut keys: Vec<SortKey> = Vec::new();
    let mut i: usize = 0;
    proof {
        filter_none(all, f);
        assert(picked(all, sel@) =~= all.take(0).filter(f));
        assert(key_views(keys@) =~= picked(all, sel@).map_values(key));
    }
    while i < raw.len()
        invariant
            i <= raw@.len(),
            all == remarks(raw@),
            f == |c: RemarkView| says_enough(c),
            key == |c: RemarkView| by_usefulness(c),
            sel@.len() == keys@.len(),
            forall|k: int| 0 <= k < sel@.len() ==> (#[trigger] sel@[k]) < raw@.len(),
            picked(all, sel@) == all.take(i as int).filter(f),
            key_views(keys@) == picked(all, sel@).map_values(key),
        decreases raw@.len() - i,
    {
        let ghost c = all[i as int];
        assert(c == raw@[i as int]@);
        proof {
            filter_step(all, i as int, f);
        }
        if count_han(&raw[i].content) >= 15 {
            let ghost was = sel@;
            let ghost kwas = keys@;
            let k = SortKey { text: String::new(), a: -(raw[i].usefulness as i128), b: 0 };
            assert(k@.text =~= Seq::<char>::empty());
            sel.push(i);
            keys.push(k);
            assert(picked(all, sel@) =~= picked(all, was).push(c));
            assert(key_views(keys@) =~= key_views(kwas).push(k@));
            assert(key_views(keys@) =~= picked(all, sel@).map_values(key));
        }
        i += 1;
    }
    assert(all.take(raw@.len() as int) =~= all);
    (sel, keys)
}

/// The places of all comments, and what they are sorted by where too few say enough.
fn pick_all(raw: &Vec<Comment>) -> (r: (Vec<usize>, Vec<SortKey>))
    ensures
        r.0@.len() == r.1@.len(),
        forall|k: int| 0 <= k < r.0@.len() ==> (#[trigger] r.0@[k]) < raw@.len(),
        picked(remarks(raw@), r.0@) == remarks(raw@),
        key_views(r.1@) == remarks(raw@).map_values(|c: RemarkView| by_length(c)),
{
    let ghost all = remarks(raw@);
    let ghost key = |c: RemarkView| by_length(c);
    let mut sel: Vec<usize> = Vec::new();
    let mut keys: Vec<SortKey> = Vec::new();
    let mut i: usize = 0;
    assert(key_views(keys@) =~= all.take(0).map_values(key));
    while i < raw.len()
        invariant
            i <= raw@.len(),
            all == remarks(raw@),
            key == |c: RemarkView| by_length(c),
            sel@.len() == i,
            keys@.len() == i,
            forall|k: int| 0 <= k < sel@.len() ==> (#[trigger] sel@[k]) == k,
            key_views(keys@) == all.take(i as int).map_values(key),
        decreases raw@.len() - i,
    {
        assert(all[i as int] == raw@[i as int]@);
        let ghost kwas = keys@;
        let k = SortKey { text: String::new(), a: -(count_han(&raw[i].content) as i128), b: 0 };
        assert(k@.text =~= Seq::<char>::empty());
        sel.push(i);
        keys.push(k);
        i += 1;
        assert(key_views(keys@) =~= key_views(kwas).push(k@));
        assert(key_views(keys@) =~= all.take(i as int).map_values(key));
    }
    assert(all.take(raw@.len() as int) =~= all);
    assert(picked(all, sel@) =~= all);
    (sel, keys)
}

/// The five most useful of the comments that say enough, where there are five; else the
/// five longest of all.
pub fn filter_comments(raw: Vec<Comment>) -> (r: Vec<Comment>)
    ensures
        remarks(r@) == best_remarks(remarks(raw@)),
{
    let (good, keys) = pick_enough(&raw);
    assert(picked(remarks(raw@), good@).len() == good@.len());
    if good.len() >= 5 {
        top_five(&raw, &good, &keys, Ghost(|c: RemarkView| by_usefulness(c)))
    } else {
        let (every, lengths) = pick_all(&raw);
        top_five(&raw, &every, &lengths, Ghost(|c: RemarkView| by_length(c)))
    }
}

/// At most five comments are kept, each of them one of those given; and where five say
/// enough, each that is kept does.
pub proof fn kept_remarks_are_given(all: Seq<RemarkView>, i: int)
    requires
        0 <= i < best_remarks(all).len(),
    ensures
        best_remarks(all).len() <= 5,
        all.contains(best_remarks(all)[i]),
        all.filter(|c: RemarkView| says_enough(c)).len() >= 5 ==> says_enough(best_remarks(all)[i]),
{
    let f = |c: RemarkView| says_enough(c);
    let good = all.filter(f);
    filter_from(all, f);
    if good.len() >= 5 {
        let key = |c: RemarkView| by_usefulness(c);
        order_is_stable_sort(good.map_values(key));
        let o = order_of(good.map_values(key));
        assert(0 <= o[i] < good.len());
        assert(sorted_by(good, key)[i] == good[o[i]]);
    } else {
        let key = |c: RemarkView| by_length(c);
        order_is_stable_sort(all.map_values(key));
        let o = order_of(all.map_values(key));
        assert(0 <= o[i] < all.len());
        assert(sorted_by(all, key)[i] == all[o[i]]);
    }
}

/// Where fewer than five comments have fifteen Chinese characters, those that are kept are the
/// longest: as many as there are, but five at most, none shorter before a longer one, those of
/// one length in the order given, and no other has more Chinese characters than the last that
/// is kept. `o` says where each that is kept was given.
pub proof fn longest_remarks_are_kept(all: Seq<RemarkView>) -> (o: Seq<int>)
    requires
        all.filter(|c: RemarkView| han_count(c.content) >= 15).len() < 5,
    ensures
        ({
            let r = best_remarks(all);
            &&& r.len() == (if all.len() < 5 {
                all.len()
            } else {
                5
            })
            &&& o.len() == r.len()
            &&& o.no_duplicates()
            &&& forall|i: int|
                0 <= i < r.len() ==> 0 <= #[trigger] o[i] < all.len() && r[i] == all[o[i]]
            &&& forall|i: int, j: int|
                0 <= i < j < r.len() ==> {
                    ||| han_count((#[trigger] r[i]).content) > han_count((#[trigger] r[j]).content)
                    ||| han_count(r[i].content) == han_count(r[j].content) && o[i] < o[j]
                }
            &&& forall|p: int|
                0 <= p < all.len() && !o.contains(p) ==> {
                    ||| han_count((#[trigger] all[p]).content) < han_count(r.last().content)
                    ||| han_count(all[p].content) == han_count(r.last().content) && p > o.last()
                }
        }),
{
    let f = |c: RemarkView| says_enough(c);
    assert(f =~= (|c: RemarkView| han_count(c.content) >= 15));
    let key = |c: RemarkView| by_length(c);
    let all_places = sorted_places(all, key);
    let n = if all.len() < 5 {
        all.len() as int
    } else {
        5
    };
    let r = best_remarks(all);
    let o = all_places.take(n);
    assert forall|i: int, j: int| 0 <= i < j < r.len() implies {
        ||| han_count((#[trigger] r[i]).content) > han_count((#[trigger] r[j]).content)
        ||| han_count(r[i].content) == han_count(r[j].content) && o[i] < o[j]
    } by {
        assert(all_places[i] == o[i] && all_places[j] == o[j]);
    }
    assert forall|p: int| 0 <= p < all.len() && !o.contains(p) implies {
        ||| han_count((#[trigger] all[p]).content) < han_count(r.last().content)
        ||| han_count(all[p].content) == han_count(r.last().content) && p > o.last()
    } by {
        assert(all_places.contains(p));
        let q = choose|q: int| 0 <= q < all_places.len() && all_places[q] == p;
        if q < n {
            assert(o[q] == p);
        }
        assert(all_places[n - 1] == o[n - 1]);
    }
    o
}

/// Where five comments have fifteen Chinese characters, five are kept, each of them one of
/// these, the most useful first, those that are as useful in the order given; and none that
/// has fifteen and is left out is more useful than the last that is kept. `o` says where each
/// that is kept was given.
pub proof fn most_useful_remarks_are_kept(all: Seq<RemarkView>) -> (o: Seq<int>)
    requires
        all.filter(|c: RemarkView| han_count(c.content) >= 15).len() >= 5,
    ensures
        ({
            let r = best_remarks(all);
            &&& r.len() == 5
            &&& o.len() == 5
            &&& o.no_duplicates()
            &&& forall|i: int|
                0 <= i < 5 ==> 0 <= #[trigger] o[i] < all.len() && r[i] == all[o[i]] && han_count(
                    r[i].content,
                ) >= 15
            &&& forall|i: int, j: int|
                0 <= i < j < 5 ==> {
                    ||| (#[trigger] r[i]).usefulness > (#[trigger] r[j]).usefulness
                    ||| r[i].usefulness == r[j].usefulness && o[i] < o[j]
                }
            &&& forall|p: int|
                0 <= p < all.len() && han_count((#[trigger] all[p]).content) >= 15 && !o.contains(
                    p,
                ) ==> {
                    ||| all[p].usefulness < r.last().usefulness
                    ||| all[p].usefulness == r.last().usefulness && p > o.last()
                }
        }),
{
    let f = |c: RemarkView| says_enough(c);
    assert(f =~= (|c: RemarkView| han_count(c.content) >= 15));
    let key = |c: RemarkView| by_usefulness(c);
    let good = all.filter(f);
    let m = filter_places(all, f);
    let all_places = sorted_places(good, key);
    let r = best_remarks(all);
    let o = Seq::new(5, |i: int| m[all_places[i]]);
    assert forall|i: int| 0 <= i < 5 implies 0 <= #[trigger] o[i] < all.len() && r[i] == all[o[i]]
        && han_count(r[i].content) >= 15 by {
        assert(0 <= all_places[i] < good.len());
        assert(o[i] == m[all_places[i]]);
    }
    assert forall|i: int, j: int| 0 <= i < 5 && 0 <= j < 5 && i != j implies o[i] != o[j] by {
        let a = all_places[i];
        let b = all_places[j];
        assert(a != b);
        if a < b {
            assert(m[a] < m[b]);
        } else {
            assert(m[b] < m[a]);
        }
    }
    assert forall|i: int, j: int| 0 <= i < j < 5 implies {
        ||| (#[trigger] r[i]).usefulness > (#[trigger] r[j]).usefulness
        ||| r[i].usefulness == r[j].usefulness && o[i] < o[j]
    } by {
        let a = all_places[i];
        let b = all_places[j];
        if a < b {
            assert(m[a] < m[b]);
        }
    }
    assert forall|p: int|
        0 <= p < all.len() && han_count((#[trigger] all[p]).content) >= 15 && !o.contains(
            p,
        ) implies {
        ||| all[p].usefulness < r.last().usefulness
        ||| all[p].usefulness == r.last().usefulness && p > o.last()
    } by {
        assert(f(all[p]));
        assert(m.contains(p));
        let t = choose|t: int| 0 <= t < m.len() && m[t] == p;
        assert(all_places.contains(t));
        let q = choose|q: int| 0 <= q < all_places.len() && all_places[q] == t;
        if q < 5 {
            assert(o[q] == p);
        }
        let a = all_places[4];
        if a < t {
            assert(m[a] < m[t]);
        }
        assert(r.last() == good[a]);
    }
    o
}

// ---- comments on a page ----

/// The stars that a class stands for: `allstar50` for five.
pub open spec fn class_stars(class: Seq<char>) -> Option<int> {
    if "allstar"@.is_prefix_of(class) {
        match parse_int(class.skip(7)) {
            Some(n) => if i32::MIN <= n <= i32::MAX {
                Some(if n >= 0 {
                    n / 10
                } else {
                    -((-n) / 10)
                })
            } else {
                None
            },
            None => None,
        }
    } else {
        None
    }
}

/// The stars that the first class which stands for any stands for.
pub open spec fn stars_of(classes: Seq<Seq<char>>) -> Option<int>
    decreases classes.len(),
{
    if classes.len() == 0 {
        None
    } else if class_stars(classes[0]) is Some {
        class_stars(classes[0])
    } else {
        stars_of(classes.drop_first())
    }
}

/// The stars of the first element.
pub open spec fn first_stars(found: Option<Seq<FoundView>>) -> Option<int> {
    match found {
        Some(v) => if v.len() > 0 {
            stars_of(v[0].classes)
        } else {
            None
        },
        None => None,
    }
}

fn class_rating(class: &str) -> (r: Option<i32>)
    ensures
        match r {
            Some(n) => class_stars(class@) == Some(n as int),
            None => class_stars(class@) is None,
        },
{
    proof {
        reveal_strlit("allstar");
    }
    if !starts_with(class, "allstar") {
        return None;
    }
    let v = chars_of(class);
    assert(v@.skip(7) =~= v@.subrange(7, v@.len() as int));
    let num = string_of_range(&v, 7, v.len());
    match parse_i64(&num) {
        Some(n) => {
            if n < -2147483648 || n > 2147483647 {
                return None;
            }
            let q: i64 = if n >= 0 {
                n / 10
            } else {
                -((-n) / 10)
            };
            Some(q as i32)
        },
        None => None,
    }
}

fn classes_rating(classes: &Vec<String>) -> (r: Option<i32>)
    ensures
        match r {
            Some(n) => stars_of(strs(classes@)) == Some(n as int),
            None => stars_of(strs(classes@)) is None,
        },
{
    let ghost all = strs(classes@);
    let mut i: usize = 0;
    assert(all.skip(0) =~= all);
    while i < classes.len()
        invariant
            i <= classes@.len(),
            all == strs(classes@),
            stars_of(all) == stars_of(all.skip(i as int)),
        decreases classes@.len() - i,
    {
        assert(all.skip(i as int)[0] == classes@[i as int]@);
        assert(all.skip(i as int).drop_first() =~= all.skip(i + 1));
        match class_rating(&classes[i]) {
            Some(n) => {
                return Some(n);
            },
            None => {},
        }
        i += 1;
    }
    None
}

fn found_rating(found: &Option<Vec<Found>>) -> (r: Option<i32>)
    ensures
        match r {
            Some(n) => first_stars(opt_found(*found)) == Some(n as int),
            None => first_stars(opt_found(*found)) is None,
        },
{
    match found {
        Some(v) => if v.len() > 0 {
            assert(found_views(v@)[0] == v@[0]@);
            classes_rating(&v[0].classes)
        } else {
            None
        },
        None => None,
    }
}

/// The stars of a comment, from the elements that may show them.
pub open spec fn rating_in(a: Option<Seq<FoundView>>, b: Option<Seq<FoundView>>) -> Option<int> {
    match first_stars(a) {
        Some(n) => Some(n),
        None => first_stars(b),
    }
}

/// The stars of a comment, from the elements that may show them.
pub fn parse_rating(a: &Option<Vec<Found>>, b: &Option<Vec<Found>>) -> (r: Option<i32>)
    ensures
        match r {
            Some(n) => rating_in(opt_found(*a), opt_found(*b)) == Some(n as int),
            None => rating_in(opt_found(*a), opt_found(*b)) is None,
        },
{
    match found_rating(a) {
        Some(n) => Some(n),
        None => found_rating(b),
    }
}

/// The text of the first element, where it is not blank.
pub open spec fn first_text(found: Option<Seq<FoundView>>) -> Option<Seq<char>> {
    match found {
        Some(v) => if v.len() > 0 && ws_normal(v[0].text).len() > 0 {
            Some(ws_normal(v[0].text))
        } else {
            None
        },
        None => None,
    }
}

/// The text of the first element, where it is not blank.
pub fn text_of_first(found: &Option<Vec<Found>>) -> (r: Option<String>)
    ensures
        opt_str(r) == first_text(opt_found(*found)),
{
    match found {
        Some(v) => {
            if v.len() > 0 {
                assert(found_views(v@)[0] == v@[0]@);
                let t = normalize_ws(&v[0].text);
                if !t.as_str().is_empty() {
                    return Some(t);
                }
            }
            None
        },
        None => None,
    }
}

/// The text of a comment, from the elements that may hold it.
pub open spec fn content_in(a: Option<Seq<FoundView>>, b: Option<Seq<FoundView>>) -> Option<
    Seq<char>,
> {
    match first_text(a) {
        Some(t) => Some(t),
        None => first_text(b),
    }
}

/// The text of a comment, from the elements that may hold it.
pub fn parse_content(a: &Option<Vec<Found>>, b: &Option<Vec<Found>>) -> (r: Option<String>)
    ensures
        opt_str(r) == content_in(opt_found(*a), opt_found(*b)),
{
    match text_of_first(a) {
        Some(t) => Some(t),
        None => text_of_first(b),
    }
}

/// The digits of `s`.
pub open spec fn digits_in(s: Seq<char>) -> Seq<char>
    decreases s.len(),
{
    if s.len() == 0 {
        Seq::empty()
    } else if is_digit(s.last()) {
        digits_in(s.drop_last()).push(s.last())
    } else {
        digits_in(s.drop_last())
    }
}

/// The number that the digits of the first element make, where it is one of 32 bits.
pub open spec fn first_number(found: Option<Seq<FoundView>>) -> Option<int> {
    match found {
        Some(v) => if v.len() > 0 {
            match parse_int(digits_in(v[0].text)) {
                Some(n) => if n <= i32::MAX {
                    Some(n)
                } else {
                    None
                },
                None => None,
            }
        } else {
            None
        },
        None => None,
    }
}

fn only_digits(s: &str) -> (r: String)
    ensures
        r@ == digits_in(s@),
{
    let v = chars_of(s);
    let mut out = String::new();
    let mut i: usize = 0;
    assert(v@.take(0) =~= Seq::<char>::empty());
    while i < v.len()
        invariant
            i <= v@.len(),
            out@ == digits_in(v@.take(i as int)),
        decreases v@.len() - i,
    {
        assert(v@.take(i + 1).drop_last() =~= v@.take(i as int));
        if '0' <= v[i] && v[i] <= '9' {
            out.push(v[i]);
        }
        i += 1;
    }
    assert(v@.take(v@.len() as int) =~= s@);
    out
}

proof fn digits_are_digits(s: Seq<char>)
    ensures
        forall|i: int| 0 <= i < digits_in(s).len() ==> is_digit(#[trigger] digits_in(s)[i]),
    decreases s.len(),
{
    if s.len() > 0 {
        digits_are_digits(s.drop_last());
        let before = digits_in(s.drop_last());
        assert forall|i: int| 0 <= i < digits_in(s).len() implies is_digit(
            #[trigger] digits_in(s)[i],
        ) by {
            if i < before.len() {
                assert(is_digit(before[i]));
            }
        }
    }
}

fn found_number(found: &Option<Vec<Found>>) -> (r: Option<i32>)
    ensures
        match r {
            Some(n) => first_number(opt_found(*found)) == Some(n as int),
            None => first_number(opt_found(*found)) is None,
        },
{
    match found {
        Some(v) => {
            if v.len() > 0 {
                assert(found_views(v@)[0] == v@[0]@);
                let d = only_digits(&v[0].text);
                proof {
                    digits_are_digits(v@[0].text@);
                }
                match parse_i64(&d) {
                    Some(n) => {
                        if n <= 2147483647 {
                            assert(n >= 0) by {
                                if d@.len() > 0 {
                                    assert(is_digit(d@[0]));
                                }
                            }
                            return Some(n as i32);
                        }
                    },
                    None => {},
                }
            }
            None
        },
        None => None,
    }
}

/// How many found a comment useful, from the elements that may tell.
pub open spec fn usefulness_in(a: Option<Seq<FoundView>>, b: Option<Seq<FoundView>>) -> int {
    match first_number(a) {
        Some(n) => n,
        None => match first_number(b) {
            Some(n) => n,
            None => 0,
        },
    }
}

/// How many found a comment useful, from the elements that may tell.
pub fn parse_usefulness(a: &Option<Vec<Found>>, b: &Option<Vec<Found>>) -> (r: i32)
    ensures
        r == usefulness_in(opt_found(*a), opt_found(*b)),
{
    match found_number(a) {
        Some(n) => n,
        None => match found_number(b) {
            Some(n) => n,
            None => 0,
        },
    }
}

/// The element of a comment.
pub const COMMENT: &'static str = "li.comment-item";

/// What selects inside the `i`th comment of a page.
pub open spec fn in_comment(html: Seq<char>, i: nat, selector: Seq<char>) -> Option<Seq<FoundView>> {
    selected_in(html, seq![(COMMENT@, i)], selector, ""@)
}

/// The `i`th comment of a page, where it has a text.
pub open spec fn comment_at(html: Seq<char>, i: nat) -> Option<RemarkView> {
    match content_in(
        in_comment(html, i, "span.short"@),
        in_comment(html, i, "p.comment-content"@),
    ) {
        Some(content) => Some(
            RemarkView {
                rating: match rating_in(
                    in_comment(html, i, "span[class*=\"allstar\"]"@),
                    in_comment(html, i, "span.user-stars"@),
                ) {
                    Some(n) => Some(n as i32),
                    None => None,
                },
                content,
                usefulness: usefulness_in(
                    in_comment(html, i, "span.vote-count"@),
                    in_comment(html, i, "span[id^=\"c-\"]"@),
                ),
            },
        ),
        None => None,
    }
}

/// The first `n` comments of a page that have a text.
pub open spec fn comments_before(html: Seq<char>, n: nat) -> Seq<RemarkView>
    decreases n,
{
    if n == 0 {
        Seq::empty()
    } else {
        match comment_at(html, (n - 1) as nat) {
            Some(c) => comments_before(html, (n - 1) as nat).push(c),
            None => comments_before(html, (n - 1) as nat),
        }
    }
}

/// The comments of a page that have a text.
pub open spec fn page_comments(html: Seq<char>) -> Seq<RemarkView> {
    match selected(html, COMMENT@, ""@) {
        Some(v) => comments_before(html, v.len()),
        None => Seq::empty(),
    }
}

fn look_in_comment(html: &str, i: usize, selector: &str) -> (r: Option<Vec<Found>>)
    ensures
        opt_found(r) == in_comment(html@, i as nat, selector@),
{
    let mut steps: Vec<Step> = Vec::new();
    steps.push(Step { selector: COMMENT.to_owned(), nth: i });
    assert(steps_view(steps@) =~= seq![(COMMENT@, i as nat)]);
    elements_in(html, &steps, selector, "")
}

fn parse_one_comment(html: &str, i: usize) -> (r: Option<Comment>)
    ensures
        match r {
            Some(c) => comment_at(html@, i as nat) == Some(c@),
            None => comment_at(html@, i as nat) is None,
        },
{
    let rating = parse_rating(
        &look_in_comment(html, i, "span[class*=\"allstar\"]"),
        &look_in_comment(html, i, "span.user-stars"),
    );
    let content = parse_content(
        &look_in_comment(html, i, "span.short"),
        &look_in_comment(html, i, "p.comment-content"),
    );
    let usefulness: i32 = parse_usefulness(
        &look_in_comment(html, i, "span.vote-count"),
        &look_in_comment(html, i, "span[id^=\"c-\"]"),
    );
    match content {
        Some(content) => Some(Comment { rating, content, usefulness }),
        None => None,
    }
}

/// The comments of a page that have a text.
pub fn parse_douban_comments(html: &str) -> (r: Vec<Comment>)
    ensures
        remarks(r@) == page_comments(html@),
{
    let mut out: Vec<Comment> = Vec::new();
    match elements(html, COMMENT, "") {
        Some(found) => {
            let mut i: usize = 0;
            assert(remarks(out@) =~= comments_before(html@, 0));
            while i < found.len()
                invariant
                    i <= found@.len(),
                    remarks(out@) == comments_before(html@, i as nat),
                decreases found@.len() - i,
            {
                match parse_one_comment(html, i) {
                    Some(c) => {
                        let ghost was = out@;
                        out.push(c);
                        assert(remarks(out@) =~= remarks(was).push(c@));
                    },
                    None => {},
                }
                i += 1;
            }
            assert(found_views(found@).len() == found@.len());
            out
        },
        None => {
            assert(remarks(out@) =~= Seq::<RemarkView>::empty());
            out
        },
    }
}

// ---- the description on a page ----

/// The texts of the paragraphs that are not blank and not the link to the full text.
pub open spec fn paragraph_texts(ps: Seq<FoundView>) -> Seq<Seq<char>>
    decreases ps.len(),
{
    if ps.len() == 0 {
        Seq::empty()
    } else {
        let t = ws_normal(ps.last().text);
        if t.len() == 0 || t == "(展开全部)"@ {
            paragraph_texts(ps.drop_last())
        } else {
            paragraph_texts(ps.drop_last()).push(t)
        }
    }
}

/// The text of the paragraphs, a line each, where it is not empty.
pub open spec fn paragraphs_text(ps: Option<Seq<FoundView>>) -> Option<Seq<char>> {
    match ps {
        Some(v) => if paragraph_texts(v).len() > 0 {
            Some(join(paragraph_texts(v), "\n"@))
        } else {
            None
        },
        None => None,
    }
}

/// The text of the paragraphs, a line each, where it is not empty.
pub fn text_of_paragraphs(ps: &Option<Vec<Found>>) -> (r: Option<String>)
    ensures
        opt_str(r) == paragraphs_text(opt_found(*ps)),
{
    match ps {
        Some(v) => {
            let ghost all = found_views(v@);
            let mut out: Vec<String> = Vec::new();
            let mut i: usize = 0;
            assert(all.take(0) =~= Seq::<FoundView>::empty());
            assert(strs(out@) =~= paragraph_texts(all.take(0)));
            while i < v.len()
                invariant
                    i <= v@.len(),
                    all == found_views(v@),
                    strs(out@) == paragraph_texts(all.take(i as int)),
                decreases v@.len() - i,
            {
                assert(all.take(i + 1).drop_last() =~= all.take(i as int));
                assert(all.take(i + 1).last() == v@[i as int]@);
                let t = normalize_ws(&v[i].text);
                if !t.as_str().is_empty() && !same(&t, "(展开全部)") {
                    proof {
                        strs_push(out@, t);
                    }
                    out.push(t);
                }
                i += 1;
            }
            assert(all.take(v@.len() as int) =~= all);
            assert(strs(out@).len() == out@.len());
            if out.len() > 0 {
                Some(joined(&out, "\n"))
            } else {
                None
            }
        },
        None => None,
    }
}

/// Whether anything is selected.
pub open spec fn any(found: Option<Seq<FoundView>>) -> bool {
    found is Some && found->0.len() > 0
}

fn has_any(found: &Option<Vec<Found>>) -> (r: bool)
    ensures
        r == any(opt_found(*found)),
{
    match found {
        Some(v) => {
            assert(found_views(v@).len() == v@.len());
            v.len() > 0
        },
        None => false,
    }
}

pub const REPORT: &'static str = "div#link-report";

pub const FULL_INTRO: &'static str = "span.all div.intro";

pub const INTRO: &'static str = "div.intro";

/// The way to the description of a page: the full one in the report, else the first in the
/// report, else the first of the page.
pub open spec fn intro_path(html: Seq<char>) -> Option<Seq<(Seq<char>, nat)>> {
    let report = seq![(REPORT@, 0nat)];
    if any(selected(html, REPORT@, ""@)) && any(selected_in(html, report, FULL_INTRO@, ""@)) {
        Some(seq![(REPORT@, 0nat), (FULL_INTRO@, 0nat)])
    } else if any(selected(html, REPORT@, ""@)) && any(selected_in(html, report, INTRO@, ""@)) {
        Some(seq![(REPORT@, 0nat), (INTRO@, 0nat)])
    } else if any(selected(html, INTRO@, ""@)) {
        Some(seq![(INTRO@, 0nat)])
    } else {
        None
    }
}

fn step(selector: &str) -> (r: Step)
    ensures
        r.selector@ == selector@,
        r.nth == 0,
{
    Step { selector: selector.to_owned(), nth: 0 }
}

fn find_intro(html: &str) -> (r: Option<Vec<Step>>)
    ensures
        match r {
            Some(p) => p@.len() > 0 && intro_path(html@) == Some(steps_view(p@)),
            None => intro_path(html@) is None,
        },
{
    let mut report: Vec<Step> = Vec::new();
    report.push(step(REPORT));
    assert(steps_view(report@) =~= seq![(REPORT@, 0nat)]);
    if has_any(&elements(html, REPORT, "")) {
        if has_any(&elements_in(html, &report, FULL_INTRO, "")) {
            report.push(step(FULL_INTRO));
            assert(steps_view(report@) =~= seq![(REPORT@, 0nat), (FULL_INTRO@, 0nat)]);
            return Some(report);
        }
        if has_any(&elements_in(html, &report, INTRO, "")) {
            report.push(step(INTRO));
            assert(steps_view(report@) =~= seq![(REPORT@, 0nat), (INTRO@, 0nat)]);
            return Some(report);
        }
    }
    if has_any(&elements(html, INTRO, "")) {
        let mut path: Vec<Step> = Vec::new();
        path.push(step(INTRO));
        assert(steps_view(path@) =~= seq![(INTRO@, 0nat)]);
        return Some(path);
    }
    None
}

/// The attribute of the first element, with its white space normalised, where it is not
/// blank.
pub open spec fn first_attr(found: Option<Seq<FoundView>>) -> Option<Seq<char>> {
    match found {
        Some(v) => if v.len() > 0 && v[0].attr is Some && ws_normal(v[0].attr->0).len() > 0 {
            Some(ws_normal(v[0].attr->0))
        } else {
            None
        },
        None => None,
    }
}

/// The attribute of the first element, with its white space normalised, where it is not
/// blank.
pub fn attr_of_first(found: &Option<Vec<Found>>) -> (r: Option<String>)
    ensures
        opt_str(r) == first_attr(opt_found(*found)),
{
    match found {
        Some(v) => {
            if v.len() > 0 {
                assert(found_views(v@)[0] == v@[0]@);
                match &v[0].attr {
                    Some(a) => {
                        let t = normalize_ws(a);
                        if !t.as_str().is_empty() {
                            return Some(t);
                        }
                    },
                    None => {},
                }
            }
            None
        },
        None => None,
    }
}

/// The description of a page: the paragraphs of its description, else what its head says.
pub open spec fn page_description(html: Seq<char>) -> Option<Seq<char>> {
    let body = match intro_path(html) {
        Some(path) => paragraphs_text(selected_in(html, path, "p"@, ""@)),
        None => None,
    };
    match body {
        Some(t) => Some(t),
        None => first_attr(
            selected(html, "meta[property=\"og:description\"]"@, "content"@),
        ),
    }
}

/// The description of a page: the paragraphs of its description, else what its head says.
pub fn parse_douban_description(html: &str) -> (r: Option<String>)
    ensures
        opt_str(r) == page_description(html@),
{
    match find_intro(html) {
        Some(path) => match text_of_paragraphs(&elements_in(html, &path, "p", "")) {
            Some(t) => {
                return Some(t);
            },
            None => {},
        },
        None => {},
    }
    attr_of_first(&elements(html, "meta[property=\"og:description\"]", "content"))
}

// ---- what a page says of its book ----

/// The title in the heading of a page, without the name of the site.
pub open spec fn heading_title(found: Option<Seq<FoundView>>) -> Option<Seq<char>> {
    match found {
        Some(v) => if v.len() > 0 {
            let t = before_mark(v[0].text, " (豆瓣)"@);
            if is_blank(t) {
                None
            } else {
                Some(trim(t))
            }
        } else {
            None
        },
        None => None,
    }
}

/// The part of `s` before the first `mark`; all of it where there is none.
pub open spec fn before_mark(s: Seq<char>, mark: Seq<char>) -> Seq<char> {
    match find_from(s, mark, 0) {
        Some(i) => s.take(i),
        None => s,
    }
}

fn cut_at_mark(s: &str, mark: &str) -> (r: String)
    ensures
        r@ == before_mark(s@, mark@),
{
    let v = chars_of(s);
    let m = chars_of(mark);
    proof {
        find_from_is_first(s@, mark@, 0);
    }
    match find_chars(&v, &m, 0) {
        Some(i) => {
            assert(occurs_at(v@, m@, i as int));
            assert(v@.take(i as int) =~= v@.subrange(0, i as int));
            string_of_range(&v, 0, i)
        },
        None => s.to_owned(),
    }
}

/// The title in the heading of a page, without the name of the site.
pub fn title_of_heading(found: &Option<Vec<Found>>) -> (r: Option<String>)
    ensures
        opt_str(r) == heading_title(opt_found(*found)),
{
    match found {
        Some(v) => {
            if v.len() > 0 {
                assert(found_views(v@)[0] == v@[0]@);
                let t = trimmed(&cut_at_mark(&v[0].text, " (豆瓣)"));
                if !t.as_str().is_empty() {
                    return Some(t);
                }
            }
            None
        },
        None => None,
    }
}

/// The attribute of the first element without white space at its ends, where it is not
/// blank.
pub open spec fn first_link(found: Option<Seq<FoundView>>) -> Option<Seq<char>> {
    match found {
        Some(v) => if v.len() > 0 && v[0].attr is Some && !is_blank(v[0].attr->0) {
            Some(trim(v[0].attr->0))
        } else {
            None
        },
        None => None,
    }
}

/// The attribute of the first element without white space at its ends, where it is not
/// blank.
pub fn link_of_first(found: &Option<Vec<Found>>) -> (r: Option<String>)
    ensures
        opt_str(r) == first_link(opt_found(*found)),
{
    match found {
        Some(v) => {
            if v.len() > 0 {
                assert(found_views(v@)[0] == v@[0]@);
                match &v[0].attr {
                    Some(a) => {
                        let t = trimmed(a);
                        if !t.as_str().is_empty() {
                            return Some(t);
                        }
                    },
                    None => {},
                }
            }
            None
        },
        None => None,
    }
}

/// `s` without each `tail` at its end.
pub open spec fn without_tails(s: Seq<char>, tail: Seq<char>) -> Seq<char>
    decreases s.len(),
{
    if tail.len() > 0 && tail.is_suffix_of(s) {
        without_tails(s.take(s.len() - tail.len()), tail)
    } else {
        s
    }
}

fn drop_tails(s: &str, tail: &str) -> (r: String)
    requires
        tail@.len() > 0,
    ensures
        r@ == without_tails(s@, tail@),
{
    let v = chars_of(s);
    let t = chars_of(tail);
    let mut n: usize = v.len();
    assert(v@.take(n as int) =~= v@);
    while n >= t.len() && stands_at(&v, &t, n - t.len()) && n <= v.len()
        invariant
            n <= v@.len(),
            t@ == tail@,
            t@.len() > 0,
            without_tails(v@, tail@) == without_tails(v@.take(n as int), tail@),
        decreases n,
    {
        let ghost cur = v@.take(n as int);
        assert(v@.subrange(n - t@.len(), n as int) == t@);
        assert(cur.skip(n - t@.len()) =~= t@);
        assert(t@.is_suffix_of(cur)) by {
            assert(cur.subrange(cur.len() - t@.len(), cur.len() as int) =~= t@);
        }
        assert(cur.take(cur.len() - t@.len()) =~= v@.take(n - t@.len()));
        n = n - t.len();
    }
    proof {
        let cur = v@.take(n as int);
        if t@.is_suffix_of(cur) {
            assert(cur.subrange(cur.len() - t@.len(), cur.len() as int) == t@);
            assert(v@.subrange(n - t@.len(), n as int) =~= t@);
        }
        assert(v@.take(n as int) =~= v@.subrange(0, n as int));
    }
    string_of_range(&v, 0, n)
}

/// The name behind the first colon of a line, of either form.
pub open spec fn name_behind_colon(line: Seq<char>) -> Option<Seq<char>> {
    let parts = split_on(line, seq![':', '：']);
    if parts.len() > 1 {
        let t = trim(without_tails(ws_normal(parts[1]), "更多..."@));
        if t.len() > 0 {
            Some(t)
        } else {
            None
        }
    } else {
        None
    }
}

fn after_colon(line: &str) -> (r: Option<String>)
    ensures
        opt_str(r) == name_behind_colon(line@),
{
    proof {
        reveal_strlit("更多...");
    }
    let mut colons: Vec<char> = Vec::new();
    colons.push(':');
    colons.push('：');
    assert(colons@ =~= seq![':', '：']);
    let parts = split(line, &colons);
    assert(strs(parts@).len() == parts@.len());
    if parts.len() > 1 {
        assert(strs(parts@)[1] == parts@[1]@);
        let t = trimmed(&drop_tails(&normalize_ws(&parts[1]), "更多..."));
        if !t.as_str().is_empty() {
            return Some(t);
        }
    }
    None
}

/// The names in links, each once; blank ones do not count.
pub open spec fn link_names(links: Seq<FoundView>) -> Seq<Seq<char>>
    decreases links.len(),
{
    if links.len() == 0 {
        Seq::empty()
    } else {
        let t = ws_normal(links.last().text);
        if t.len() == 0 {
            link_names(links.drop_last())
        } else {
            with_new(link_names(links.drop_last()), t)
        }
    }
}

/// The authors that a line names: those in its links, else the one behind its colon.
pub open spec fn line_authors(line: Seq<char>, links: Option<Seq<FoundView>>) -> Seq<Seq<char>> {
    let named = match links {
        Some(v) => link_names(v),
        None => Seq::empty(),
    };
    if named.len() > 0 {
        named
    } else {
        match name_behind_colon(trim(line)) {
            Some(n) => seq![n],
            None => Seq::empty(),
        }
    }
}

/// The authors that a line names: those in its links, else the one behind its colon.
pub fn authors_in_line(line: &str, links: &Option<Vec<Found>>) -> (r: Vec<String>)
    ensures
        strs(r@) == line_authors(line@, opt_found(*links)),
{
    let mut out: Vec<String> = Vec::new();
    assert(strs(out@) =~= Seq::<Seq<char>>::empty());
    match links {
        Some(v) => {
            let ghost all = found_views(v@);
            let mut i: usize = 0;
            assert(all.take(0) =~= Seq::<FoundView>::empty());
            while i < v.len()
                invariant
                    i <= v@.len(),
                    all == found_views(v@),
                    strs(out@) == link_names(all.take(i as int)),
                decreases v@.len() - i,
            {
                assert(all.take(i + 1).drop_last() =~= all.take(i as int));
                assert(all.take(i + 1).last() == v@[i as int]@);
                let t = normalize_ws(&v[i].text);
                if !t.as_str().is_empty() {
                    add_new(&mut out, &t);
                }
                i += 1;
            }
            assert(all.take(v@.len() as int) =~= all);
        },
        None => {},
    }
    assert(strs(out@).len() == out@.len());
    if out.len() == 0 {
        match after_colon(&trimmed(line)) {
            Some(n) => {
                out.push(n);
                assert(strs(out@) =~= seq![n@]);
            },
            None => {},
        }
    }
    out
}

pub const INFO: &'static str = "div#info";

/// The spans of the `i`th block of facts.
pub open spec fn info_spans(html: Seq<char>, i: nat) -> Seq<FoundView> {
    match selected_in(html, seq![(INFO@, i)], "span"@, ""@) {
        Some(v) => v,
        None => Seq::empty(),
    }
}

/// Where the first span from `j` on that names authors stands.
pub open spec fn author_span(spans: Seq<FoundView>, j: int) -> Option<int>
    decreases spans.len() - j,
{
    if j < 0 || j >= spans.len() {
        None
    } else if "作者"@.is_prefix_of(trim(spans[j].text)) {
        Some(j)
    } else {
        author_span(spans, j + 1)
    }
}

/// The first span from block `i` of `n` on that names authors: its block and its place.
pub open spec fn author_place(html: Seq<char>, i: nat, n: nat) -> Option<(nat, nat)>
    decreases n - i,
{
    if i >= n {
        None
    } else {
        match author_span(info_spans(html, i), 0) {
            Some(j) => Some((i, j as nat)),
            None => author_place(html, i + 1, n),
        }
    }
}

/// The authors of the book of a page.
pub open spec fn page_authors(html: Seq<char>) -> Seq<Seq<char>> {
    match selected(html, INFO@, ""@) {
        Some(blocks) => match author_place(html, 0, blocks.len()) {
            Some((i, j)) => line_authors(
                info_spans(html, i)[j as int].text,
                selected_in(html, seq![(INFO@, i), ("span"@, j)], "a"@, ""@),
            ),
            None => Seq::empty(),
        },
        None => Seq::empty(),
    }
}

fn find_author_span(spans: &Vec<Found>) -> (r: Option<usize>)
    ensures
        match r {
            Some(j) => j < spans@.len() && author_span(found_views(spans@), 0) == Some(j as int),
            None => author_span(found_views(spans@), 0) is None,
        },
{
    let ghost all = found_views(spans@);
    let mut j: usize = 0;
    while j < spans.len()
        invariant
            j <= spans@.len(),
            all == found_views(spans@),
            author_span(all, 0) == author_span(all, j as int),
        decreases spans@.len() - j,
    {
        assert(all[j as int] == spans@[j as int]@);
        if starts_with(&trimmed(&spans[j].text), "作者") {
            return Some(j);
        }
        j += 1;
    }
    None
}

fn find_authors(html: &str) -> (r: Vec<String>)
    ensures
        strs(r@) == page_authors(html@),
{
    let none: Vec<String> = Vec::new();
    assert(strs(none@) =~= Seq::<Seq<char>>::empty());
    match elements(html, INFO, "") {
        Some(blocks) => {
            assert(found_views(blocks@).len() == blocks@.len());
            let mut i: usize = 0;
            while i < blocks.len()
                invariant
                    i <= blocks@.len(),
                    found_views(blocks@).len() == blocks@.len(),
                    selected(html@, INFO@, ""@) == Some(found_views(blocks@)),
                    author_place(html@, 0, blocks@.len()) == author_place(
                        html@,
                        i as nat,
                        blocks@.len(),
                    ),
                decreases blocks@.len() - i,
            {
                let mut path: Vec<Step> = Vec::new();
                path.push(Step { selector: INFO.to_owned(), nth: i });
                assert(steps_view(path@) =~= seq![(INFO@, i as nat)]);
                match elements_in(html, &path, "span", "") {
                    Some(spans) => {
                        assert(info_spans(html@, i as nat) == found_views(spans@));
                        match find_author_span(&spans) {
                            Some(j) => {
                                path.push(Step { selector: "span".to_owned(), nth: j });
                                assert(steps_view(path@) =~= seq![
                                    (INFO@, i as nat),
                                    ("span"@, j as nat),
                                ]);
                                assert(found_views(spans@)[j as int] == spans@[j as int]@);
                                return authors_in_line(
                                    &spans[j].text,
                                    &elements_in(html, &path, "a", ""),
                                );
                            },
                            None => {},
                        }
                    },
                    None => {
                        assert(info_spans(html@, i as nat) =~= Seq::<FoundView>::empty());
                    },
                }
                i += 1;
            }
            none
        },
        None => none,
    }
}

/// What a page says of its book: the title in its head or its heading, its authors, its
/// picture and its description.
pub fn parse_douban_book_meta(html: &str) -> (r: DoubanBookMeta)
    ensures
        opt_str(r.title) == (match first_attr(
            selected(html@, "meta[property=\"og:title\"]"@, "content"@),
        ) {
            Some(t) => Some(t),
            None => heading_title(selected(html@, "title"@, ""@)),
        }),
        opt_str(r.author) == (if page_authors(html@).len() > 0 {
            Some(join(page_authors(html@), "、"@))
        } else {
            None
        }),
        opt_str(r.cover_url) == (match first_link(
            selected(html@, "meta[property=\"og:image\"]"@, "content"@),
        ) {
            Some(u) => Some(u),
            None => first_link(selected(html@, "div#mainpic img"@, "src"@)),
        }),
        opt_str(r.summary) == page_description(html@),
{
    let title = match attr_of_first(&elements(html, "meta[property=\"og:title\"]", "content")) {
        Some(t) => Some(t),
        None => title_of_heading(&elements(html, "title", "")),
    };
    let authors = find_authors(html);
    assert(strs(authors@).len() == authors@.len());
    let author = if authors.len() > 0 {
        Some(joined(&authors, "、"))
    } else {
        None
    };
    let cover_url = match link_of_first(
        &elements(html, "meta[property=\"og:image\"]", "content"),
    ) {
        Some(u) => Some(u),
        None => link_of_first(&elements(html, "div#mainpic img", "src")),
    };
    DoubanBookMeta { title, author, cover_url, summary: parse_douban_description(html) }
}

// ---- comments of the book site ----

/// The comments in an answer: the list under `items`, `comments` or `data`, whichever there
/// is first, else the answer itself; nothing where that is no list.
pub open spec fn review_items(text: Seq<char>) -> Seq<Seq<char>> {
    let under = match array_of_json(text, "items"@) {
        Some(a) => a,
        None => match array_of_json(text, "comments"@) {
            Some(a) => a,
            None => match array_of_json(text, "data"@) {
                Some(a) => a,
                None => None,
            },
        },
    };
    match under {
        Some(v) => v,
        None => match list_of_json(text) {
            Some(v) => v,
            None => Seq::empty(),
        },
    }
}

/// The first text under one of the keys that is not blank.
pub open spec fn text_under(item: Seq<char>, keys: Seq<Seq<char>>) -> Option<Seq<char>>
    decreases keys.len(),
{
    if keys.len() == 0 {
        None
    } else {
        match text_of_json(item, keys[0]) {
            Some(t) => if is_blank(t) {
                text_under(item, keys.drop_first())
            } else {
                Some(trim(t))
            },
            None => text_under(item, keys.drop_first()),
        }
    }
}

/// The first number under one of the keys, at least zero and of 32 bits.
pub open spec fn number_under(item: Seq<char>, keys: Seq<Seq<char>>) -> Option<int>
    decreases keys.len(),
{
    if keys.len() == 0 {
        None
    } else {
        match int_of_json(item, keys[0]) {
            Some(n) => Some(
                if n < 0 {
                    0
                } else if n > i32::MAX {
                    i32::MAX as int
                } else {
                    n as int
                },
            ),
            None => number_under(item, keys.drop_first()),
        }
    }
}

pub open spec fn text_keys() -> Seq<Seq<char>> {
    seq!["content"@, "body"@, "text"@, "review"@, "comment"@]
}

pub open spec fn like_keys() -> Seq<Seq<char>> {
    seq!["likeCount"@, "likes"@, "usefulCount"@, "voteCount"@]
}

pub open spec fn score_keys() -> Seq<Seq<char>> {
    seq!["rating"@, "score"@, "stars"@]
}

/// A score out of five; one above five is out of ten.
pub open spec fn out_of_five(n: int) -> int {
    if n > 5 {
        n / 2
    } else {
        n
    }
}

/// The comment that an element of an answer holds, where it has a text.
pub open spec fn review_of(item: Seq<char>) -> Option<RemarkView> {
    match text_under(item, text_keys()) {
        Some(content) => Some(
            RemarkView {
                rating: match number_under(item, score_keys()) {
                    Some(n) => Some(out_of_five(n) as i32),
                    None => None,
                },
                content,
                usefulness: match number_under(item, like_keys()) {
                    Some(n) => n,
                    None => 0,
                },
            },
        ),
        None => None,
    }
}

/// The comments that elements of an answer hold.
pub open spec fn reviews_in(items: Seq<Seq<char>>) -> Seq<RemarkView>
    decreases items.len(),
{
    if items.len() == 0 {
        Seq::empty()
    } else {
        match review_of(items.last()) {
            Some(c) => reviews_in(items.drop_last()).push(c),
            None => reviews_in(items.drop_last()),
        }
    }
}

fn find_items(text: &str) -> (r: Vec<String>)
    ensures
        strs(r@) == review_items(text@),
{
    let under = match read_array(text, "items") {
        Some(a) => a,
        None => match read_array(text, "comments") {
            Some(a) => a,
            None => match read_array(text, "data") {
                Some(a) => a,
                None => None,
            },
        },
    };
    match under {
        Some(v) => v,
        None => match read_list(text) {
            Some(v) => v,
            None => {
                let none: Vec<String> = Vec::new();
                assert(strs(none@) =~= Seq::<Seq<char>>::empty());
                none
            },
        },
    }
}

fn find_text(item: &str, keys: &Vec<&str>, Ghost(all): Ghost<Seq<Seq<char>>>) -> (r: Option<String>)
    requires
        all == keys@.map_values(|k: &str| k@),
    ensures
        opt_str(r) == text_under(item@, all),
{
    let mut i: usize = 0;
    assert(all.skip(0) =~= all);
    while i < keys.len()
        invariant
            i <= keys@.len(),
            all == keys@.map_values(|k: &str| k@),
            text_under(item@, all) == text_under(item@, all.skip(i as int)),
        decreases keys@.len() - i,
    {
        assert(all.skip(i as int)[0] == keys@[i as int]@);
        assert(all.skip(i as int).drop_first() =~= all.skip(i + 1));
        match read_text(item, keys[i]) {
            Some(t) => {
                let t = trimmed(&t);
                if !t.as_str().is_empty() {
                    return Some(t);
                }
            },
            None => {},
        }
        i += 1;
    }
    None
}

fn find_number(item: &str, keys: &Vec<&str>, Ghost(all): Ghost<Seq<Seq<char>>>) -> (r: Option<i32>)
    requires
        all == keys@.map_values(|k: &str| k@),
    ensures
        match r {
            Some(n) => n >= 0 && number_under(item@, all) == Some(n as int),
            None => number_under(item@, all) is None,
        },
{
    let mut i: usize = 0;
    assert(all.skip(0) =~= all);
    while i < keys.len()
        invariant
            i <= keys@.len(),
            all == keys@.map_values(|k: &str| k@),
            number_under(item@, all) == number_under(item@, all.skip(i as int)),
        decreases keys@.len() - i,
    {
        assert(all.skip(i as int)[0] == keys@[i as int]@);
        assert(all.skip(i as int).drop_first() =~= all.skip(i + 1));
        match read_int(item, keys[i]) {
            Some(n) => {
                let m: i32 = if n < 0 {
                    0
                } else if n > 2147483647 {
                    2147483647
                } else {
                    n as i32
                };
                return Some(m);
            },
            None => {},
        }
        i += 1;
    }
    None
}

fn read_review(item: &str) -> (r: Option<Comment>)
    ensures
        match r {
            Some(c) => review_of(item@) == Some(c@),
            None => review_of(item@) is None,
        },
{
    let texts: Vec<&str> = vec!["content", "body", "text", "review", "comment"];
    let likes: Vec<&str> = vec!["likeCount", "likes", "usefulCount", "voteCount"];
    let scores: Vec<&str> = vec!["rating", "score", "stars"];
    proof {
        assert(texts@.map_values(|k: &str| k@) =~= text_keys());
        assert(likes@.map_values(|k: &str| k@) =~= like_keys());
        assert(scores@.map_values(|k: &str| k@) =~= score_keys());
    }
    match find_text(item, &texts, Ghost(text_keys())) {
        Some(content) => {
            let usefulness: i32 = match find_number(item, &likes, Ghost(like_keys())) {
                Some(n) => n,
                None => 0,
            };
            let rating = match find_number(item, &scores, Ghost(score_keys())) {
                Some(n) => Some(
                    if n > 5 {
                        n / 2
                    } else {
                        n
                    },
                ),
                None => None,
            };
            Some(Comment { rating, content, usefulness })
        },
        None => None,
    }
}

/// The comments that elements of an answer hold.
pub fn reviews_of_items(items: &Vec<String>) -> (r: Vec<Comment>)
    ensures
        remarks(r@) == reviews_in(strs(items@)),
{
    let ghost all = strs(items@);
    let mut out: Vec<Comment> = Vec::new();
    let mut i: usize = 0;
    assert(all.take(0) =~= Seq::<Seq<char>>::empty());
    assert(remarks(out@) =~= reviews_in(all.take(0)));
    while i < items.len()
        invariant
            i <= items@.len(),
            all == strs(items@),
            remarks(out@) == reviews_in(all.take(i as int)),
        decreases items@.len() - i,
    {
        assert(all.take(i + 1).drop_last() =~= all.take(i as int));
        assert(all.take(i + 1).last() == items@[i as int]@);
        match read_review(&items[i]) {
            Some(c) => {
                let ghost was = out@;
                out.push(c);
                assert(remarks(out@) =~= remarks(was).push(c@));
            },
            None => {},
        }
        i += 1;
    }
    assert(all.take(items@.len() as int) =~= all);
    out
}

/// The comments in an answer of the book site.
pub fn parse_clasp_reviews(text: &str) -> (r: Vec<Comment>)
    ensures
        remarks(r@) == reviews_in(review_items(text@)),
{
    reviews_of_items(&find_items(text))
}

/// The address of a search for suggestions.
pub fn suggestions_url(keyword: &str) -> (r: String)
    ensures
        r@ == "https://claspclub.com/api/v1/search/suggestions?keyword="@
            + coded(vstd::utf8::encode_utf8(keyword@)),
{
    "https://claspclub.com/api/v1/search/suggestions?keyword=".to_owned().concat(
        &encode(keyword),
    )
}

/// The address of a page of a search, the best first.
pub fn search_url(keyword: &str, page: i64, page_size: i64) -> (r: String)
    ensures
        r@ == "https://claspclub.com/api/v1/books?keyword="@ + coded(
            vstd::utf8::encode_utf8(keyword@),
        ) + "&sort=doubanRating&page="@ + dec_int(page as int) + "&pageSize="@
            + dec_int(page_size as int),
{
    "https://claspclub.com/api/v1/books?keyword=".to_owned().concat(
        &encode(keyword),
    ).concat("&sort=doubanRating&page=").concat(&dec_i64(page)).concat(
        "&pageSize=",
    ).concat(&dec_i64(page_size))
}

/// Adding what is not held yet leaves what is held or given, and nothing else.
pub proof fn union_holds_both(acc: Seq<Seq<char>>, xs: Seq<Seq<char>>, x: Seq<char>)
    ensures
        with_all_new(acc, xs).contains(x) <==> acc.contains(x) || xs.contains(x),
        acc.is_prefix_of(with_all_new(acc, xs)),
    decreases xs.len(),
{
    if xs.len() > 0 {
        let init = xs.drop_last();
        union_holds_both(acc, init, x);
        let before = with_all_new(acc, init);
        let now = with_all_new(acc, xs);
        if before.contains(x) {
            let k = choose|k: int| 0 <= k < before.len() && before[k] == x;
            assert(now[k] == x);
        }
        if init.contains(x) {
            let k = choose|k: int| 0 <= k < init.len() && init[k] == x;
            assert(xs[k] == x);
        }
        if xs.contains(x) && !init.contains(x) {
            let k = choose|k: int| 0 <= k < xs.len() && xs[k] == x;
            if k < init.len() {
                assert(init[k] == x);
            }
            assert(xs.last() == x);
            if !before.contains(x) {
                assert(now.last() == x);
            }
        }
        if now.contains(x) && !before.contains(x) {
            let k = choose|k: int| 0 <= k < now.len() && now[k] == x;
            if k < before.len() {
                assert(before[k] == x);
            }
            assert(xs[xs.len() - 1] == x);
        }
    }
}

// ---- what the answers and the pages give ----

proof fn one_is_added(acc: Seq<Seq<char>>, x: Seq<char>)
    ensures
        with_all_new(acc, seq![x]) == with_new(acc, x),
        with_all_new(acc, Seq::empty()) == acc,
{
    let v = seq![x];
    assert(v.drop_last() =~= Seq::<Seq<char>>::empty());
    assert(with_all_new(acc, v.drop_last()) == acc);
}

/// What the cover of a suggestion leads to.
pub open spec fn pages_of(s: ClaspBookSuggestion) -> Seq<Seq<char>> {
    match s.cover_url {
        Some(u) => match first_group("douban-(\\d+)"@, u@) {
            Some(id) => seq!["https://book.douban.com/subject/"@ + id + "/"@],
            None => Seq::empty(),
        },
        None => Seq::empty(),
    }
}

/// The author of a suggestion, where it names one.
pub open spec fn names_of(s: ClaspBookSuggestion) -> Seq<Seq<char>> {
    if is_blank(s.author_name@) {
        Seq::empty()
    } else {
        seq![trim(s.author_name@)]
    }
}

/// The tags, the pages and the authors of several suggestions are those of each of them, united;
/// the ids are those of all, in order.
pub proof fn what_suggestions_have_together(items: Seq<ClaspBookSuggestion>)
    ensures
        tags_of(items) == united(items.map_values(|s: ClaspBookSuggestion| strs(s.tags@))),
        urls_of(items) == united(items.map_values(|s: ClaspBookSuggestion| pages_of(s))),
        authors_of(items) == united(items.map_values(|s: ClaspBookSuggestion| names_of(s))),
        ids_of(items).len() == items.len(),
        forall|i: int| 0 <= i < items.len() ==> ids_of(items)[i] == (#[trigger] items[i]).id@,
    decreases items.len(),
{
    let f = |s: ClaspBookSuggestion| strs(s.tags@);
    let g = |s: ClaspBookSuggestion| pages_of(s);
    let h = |s: ClaspBookSuggestion| names_of(s);
    if items.len() > 0 {
        let d = items.drop_last();
        what_suggestions_have_together(d);
        assert(items.map_values(f).drop_last() =~= d.map_values(f));
        assert(items.map_values(g).drop_last() =~= d.map_values(g));
        assert(items.map_values(h).drop_last() =~= d.map_values(h));
        let s = items.last();
        assert(items.map_values(f).last() == strs(s.tags@));
        assert(items.map_values(g).last() == pages_of(s));
        assert(items.map_values(h).last() == names_of(s));
        one_is_added(authors_of(d), trim(s.author_name@));
        match cover_book_url(opt_str(s.cover_url)) {
            Some(u) => {
                one_is_added(urls_of(d), u);
            },
            None => {
                one_is_added(urls_of(d), Seq::empty());
            },
        }
    } else {
        assert(items.map_values(f).len() == 0);
        assert(items.map_values(g).len() == 0);
        assert(items.map_values(h).len() == 0);
    }
}

/// The page of a book is that of the first edition that has one; the main page is that of the
/// first main edition, whether it has one or not.
pub proof fn the_first_edition_gives_the_page(eds: Seq<ClaspEdition>, i: int)
    requires
        0 <= i <= eds.len(),
    ensures
        (i < eds.len() && eds[i].douban_url is Some && forall|j: int|
            0 <= j < i ==> (#[trigger] eds[j]).douban_url is None) ==> first_edition_url(eds)
            == opt_str(eds[i].douban_url),
        (forall|j: int| 0 <= j < eds.len() ==> (#[trigger] eds[j]).douban_url is None)
            ==> first_edition_url(eds) is None,
        (i < eds.len() && eds[i].is_primary && forall|j: int|
            0 <= j < i ==> !(#[trigger] eds[j]).is_primary) ==> main_edition_url(eds) == opt_str(
            eds[i].douban_url,
        ),
        (forall|j: int| 0 <= j < eds.len() ==> !(#[trigger] eds[j]).is_primary)
            ==> main_edition_url(eds) is None,
    decreases eds.len(),
{
    if eds.len() > 0 {
        let d = eds.drop_first();
        the_first_edition_gives_the_page(d, if i > 0 { i - 1 } else { 0 });
        assert(forall|j: int| 0 <= j < d.len() ==> #[trigger] d[j] == eds[j + 1]);
        if i > 0 {
            assert(i < eds.len() ==> d[i - 1] == eds[i]);
        }
        assert(eds[0] == eds[0]);
    }
}

/// The author of a book is the first of its authors, where that is not blank, else the single
/// one.
pub proof fn the_first_author_counts(b: ClaspBookItem)
    ensures
        b.authors@.len() > 0 && !is_blank(b.authors@[0].name@) ==> b.author_text() == trim(
            b.authors@[0].name@,
        ),
        (b.authors@.len() == 0 || is_blank(b.authors@[0].name@)) && b.author is Some
            ==> b.author_text() == trim(b.author->0.name@),
        (b.authors@.len() == 0 || is_blank(b.authors@[0].name@)) && b.author is None
            ==> b.author_text().len() == 0,
{
}

/// The stars of a comment are those of the first class that tells of stars: the number behind
/// its name, by tens, without the rest.
pub proof fn the_first_class_with_stars_counts(classes: Seq<Seq<char>>, i: int, n: int)
    requires
        0 <= i < classes.len(),
        "allstar"@.is_prefix_of(classes[i]),
        parse_int(classes[i].skip(7)) == Some(n),
        0 <= n <= i32::MAX,
        forall|j: int|
            0 <= j < i ==> !"allstar"@.is_prefix_of(#[trigger] classes[j]) || parse_int(
                classes[j].skip(7),
            ) is None,
    ensures
        stars_of(classes) is Some,
        10 * stars_of(classes)->0 <= n < 10 * stars_of(classes)->0 + 10,
    decreases classes.len(),
{
    if i > 0 {
        assert(class_stars(classes[0]) is None);
        let d = classes.drop_first();
        assert(forall|j: int| 0 <= j < d.len() ==> #[trigger] d[j] == classes[j + 1]);
        assert(d[i - 1] == classes[i]);
        the_first_class_with_stars_counts(d, i - 1, n);
    }
}

/// The digits of a text are its digits, in order.
pub proof fn digits_stay_in_order(s: Seq<char>)
    ensures
        digits_in(s) == s.filter(|c: char| is_digit(c)),
    decreases s.len(),
{
    reveal(Seq::filter);
    if s.len() > 0 {
        digits_stay_in_order(s.drop_last());
    }
}

/// What a comment of a page says: its text, its stars and its votes are those of the first kind
/// of element that gives them; without a text there is no comment, without votes they are none.
pub proof fn what_a_comment_of_a_page_says(html: Seq<char>, i: nat)
    ensures
        ({
            let short = first_text(in_comment(html, i, "span.short"@));
            let long = first_text(in_comment(html, i, "p.comment-content"@));
            let stars = first_stars(in_comment(html, i, "span[class*=\"allstar\"]"@));
            let marks = first_stars(in_comment(html, i, "span.user-stars"@));
            let votes = first_number(in_comment(html, i, "span.vote-count"@));
            let count = first_number(in_comment(html, i, "span[id^=\"c-\"]"@));
            &&& comment_at(html, i) is None <==> short is None && long is None
            &&& comment_at(html, i) matches Some(c) ==> {
                &&& Some(c.content) == (if short is Some { short } else { long })
                &&& stars matches Some(n) ==> c.rating == Some(n as i32)
                &&& stars is None ==> (marks matches Some(n) ==> c.rating == Some(n as i32))
                &&& stars is None && marks is None ==> c.rating is None
                &&& votes matches Some(n) ==> c.usefulness == n
                &&& votes is None ==> (count matches Some(n) ==> c.usefulness == n)
                &&& votes is None && count is None ==> c.usefulness == 0
            }
        }),
{
}

/// What an element of a page gives is what the first one selected holds, with its white space
/// made even: its text, its attribute, or the number that its digits make.
pub proof fn the_first_element_counts(v: Seq<FoundView>)
    requires
        v.len() > 0,
    ensures
        ws_normal(v[0].text).len() > 0 ==> first_text(Some(v)) == Some(ws_normal(v[0].text)),
        ws_normal(v[0].text).len() == 0 ==> first_text(Some(v)) is None,
        v[0].attr matches Some(a) ==> (ws_normal(a).len() > 0 ==> first_attr(Some(v)) == Some(
            ws_normal(a),
        )) && (!is_blank(a) ==> first_link(Some(v)) == Some(trim(a))),
        v[0].attr is None ==> first_attr(Some(v)) is None && first_link(Some(v)) is None,
        first_stars(Some(v)) == stars_of(v[0].classes),
        parse_int(v[0].text.filter(|c: char| is_digit(c))) matches Some(n) ==> first_number(Some(v))
            == (if n <= i32::MAX {
            Some(n)
        } else {
            None
        }),
        parse_int(v[0].text.filter(|c: char| is_digit(c))) is None ==> first_number(Some(v)) is None,
{
    digits_stay_in_order(v[0].text);
}

/// The comments of a page are all those that have a text, in the order of the page. `m` says
/// which.
pub proof fn every_comment_of_a_page_counts(html: Seq<char>, n: nat) -> (m: Seq<int>)
    ensures
        m.len() == comments_before(html, n).len(),
        forall|i: int, j: int| 0 <= i < j < m.len() ==> #[trigger] m[i] < #[trigger] m[j],
        forall|i: int|
            0 <= i < m.len() ==> 0 <= #[trigger] m[i] < n && comment_at(html, m[i] as nat) == Some(
                comments_before(html, n)[i],
            ),
        forall|p: nat| p < n && (#[trigger] comment_at(html, p)) is Some ==> m.contains(p as int),
    decreases n,
{
    if n == 0 {
        Seq::empty()
    } else {
        let k = (n - 1) as nat;
        let before = every_comment_of_a_page_counts(html, k);
        let m = if comment_at(html, k) is Some {
            before.push(k as int)
        } else {
            before
        };
        assert forall|i: int| 0 <= i < m.len() implies 0 <= #[trigger] m[i] < n && comment_at(
            html,
            m[i] as nat,
        ) == Some(comments_before(html, n)[i]) by {
            if i < before.len() {
                assert(m[i] == before[i]);
            }
        }
        assert forall|i: int, j: int| 0 <= i < j < m.len() implies #[trigger] m[i] < #[trigger] m[j] by {
            assert(m[i] == before[i]);
            if j < before.len() {
                assert(m[j] == before[j]);
            }
        }
        assert forall|p: nat| p < n && (#[trigger] comment_at(html, p)) is Some implies m.contains(
            p as int,
        ) by {
            if p < k {
                let q = choose|q: int| 0 <= q < before.len() && before[q] == p as int;
                assert(m[q] == p as int);
            } else {
                assert(m[before.len() as int] == p as int);
            }
        }
        m
    }
}

/// The comments of an answer are those of all its elements that have a text, in order. `m` says
/// which.
pub proof fn every_element_of_an_answer_counts(items: Seq<Seq<char>>) -> (m: Seq<int>)
    ensures
        m.len() == reviews_in(items).len(),
        forall|i: int, j: int| 0 <= i < j < m.len() ==> #[trigger] m[i] < #[trigger] m[j],
        forall|i: int|
            0 <= i < m.len() ==> 0 <= #[trigger] m[i] < items.len() && review_of(items[m[i]])
                == Some(reviews_in(items)[i]),
        forall|p: int|
            0 <= p < items.len() && review_of(#[trigger] items[p]) is Some ==> m.contains(p),
    decreases items.len(),
{
    if items.len() == 0 {
        Seq::empty()
    } else {
        let d = items.drop_last();
        let k = items.len() - 1;
        let before = every_element_of_an_answer_counts(d);
        let m = if review_of(items.last()) is Some {
            before.push(k)
        } else {
            before
        };
        assert forall|i: int| 0 <= i < m.len() implies 0 <= #[trigger] m[i] < items.len()
            && review_of(items[m[i]]) == Some(reviews_in(items)[i]) by {
            if i < before.len() {
                assert(m[i] == before[i]);
                assert(d[before[i]] == items[m[i]]);
            }
        }
        assert forall|i: int, j: int| 0 <= i < j < m.len() implies #[trigger] m[i] < #[trigger] m[j] by {
            assert(m[i] == before[i]);
            if j < before.len() {
                assert(m[j] == before[j]);
            }
        }
        assert forall|p: int|
            0 <= p < items.len() && review_of(#[trigger] items[p]) is Some implies m.contains(
            p,
        ) by {
            if p < k {
                assert(d[p] == items[p]);
                let q = choose|q: int| 0 <= q < before.len() && before[q] == p;
                assert(m[q] == p);
            } else {
                assert(m[before.len() as int] == p);
            }
        }
        m
    }
}

/// What is looked for under several keys is what stands under the first that has it: a text that
/// is not blank, a number within bounds.
pub proof fn the_first_key_counts(item: Seq<char>, keys: Seq<Seq<char>>, i: int)
    requires
        0 <= i < keys.len(),
    ensures
        (text_of_json(item, keys[i]) is Some && !is_blank(text_of_json(item, keys[i])->0)
            && forall|j: int|
            0 <= j < i ==> text_of_json(item, #[trigger] keys[j]) is None || is_blank(
                text_of_json(item, keys[j])->0,
            )) ==> text_under(item, keys) == Some(trim(text_of_json(item, keys[i])->0)),
        (forall|j: int|
            0 <= j < keys.len() ==> text_of_json(item, #[trigger] keys[j]) is None || is_blank(
                text_of_json(item, keys[j])->0,
            )) ==> text_under(item, keys) is None,
        (int_of_json(item, keys[i]) is Some && forall|j: int|
            0 <= j < i ==> int_of_json(item, #[trigger] keys[j]) is None) ==> {
            let n = int_of_json(item, keys[i])->0;
            &&& n < 0 ==> number_under(item, keys) == Some(0int)
            &&& 0 <= n <= i32::MAX ==> number_under(item, keys) == Some(n as int)
            &&& n > i32::MAX ==> number_under(item, keys) == Some(i32::MAX as int)
        },
        (forall|j: int| 0 <= j < keys.len() ==> int_of_json(item, #[trigger] keys[j]) is None)
            ==> number_under(item, keys) is None,
    decreases keys.len(),
{
    let d = keys.drop_first();
    assert(forall|j: int| 0 <= j < d.len() ==> #[trigger] d[j] == keys[j + 1]);
    assert(keys[0] == keys[0]);
    if d.len() > 0 {
        the_first_key_counts(item, d, if i > 0 { i - 1 } else { 0 });
        if i > 0 {
            assert(d[i - 1] == keys[i]);
        }
    } else {
        assert(text_under(item, d) is None);
        assert(number_under(item, d) is None);
    }
}

/// What an element of an answer says: its text, its votes and its score. A score above five is
/// halved, so none is above five that was given out of ten.
pub proof fn what_an_element_says(item: Seq<char>)
    ensures
        ({
            let texts = seq!["content"@, "body"@, "text"@, "review"@, "comment"@];
            let likes = seq!["likeCount"@, "likes"@, "usefulCount"@, "voteCount"@];
            let scores = seq!["rating"@, "score"@, "stars"@];
            &&& review_of(item) is Some <==> text_under(item, texts) is Some
            &&& review_of(item) matches Some(c) ==> {
                &&& Some(c.content) == text_under(item, texts)
                &&& number_under(item, likes) matches Some(n) ==> c.usefulness == n
                &&& number_under(item, likes) is None ==> c.usefulness == 0
                &&& number_under(item, scores) is None ==> c.rating is None
                &&& number_under(item, scores) matches Some(n) ==> c.rating is Some && (if n <= 5 {
                    c.rating->0 == n as i32
                } else {
                    c.rating->0 == (n / 2) as i32
                })
            }
        }),
{
}

/// The list of an answer is the one under `items`; only where that key is missing the one under
/// `comments`, then that under `data`, and the answer itself where none of them has a list.
pub proof fn where_the_list_of_an_answer_lies(text: Seq<char>)
    ensures
        array_of_json(text, "items"@) matches Some(Some(v)) ==> review_items(text) == v,
        array_of_json(text, "items"@) is None ==> (array_of_json(text, "comments"@) matches Some(
            Some(v),
        ) ==> review_items(text) == v),
        array_of_json(text, "items"@) is None && array_of_json(text, "comments"@) is None ==> (
        array_of_json(text, "data"@) matches Some(Some(v)) ==> review_items(text) == v),
        array_of_json(text, "items"@) is None && array_of_json(text, "comments"@) is None
            && array_of_json(text, "data"@) is None ==> (list_of_json(text) matches Some(v)
            ==> review_items(text) == v),
{
}

/// The paragraphs of a description are those that have a text, without the link to the full one,
/// in order; a line each. `m` says which.
pub proof fn every_paragraph_counts(ps: Seq<FoundView>) -> (m: Seq<int>)
    ensures
        m.len() == paragraph_texts(ps).len(),
        forall|i: int, j: int| 0 <= i < j < m.len() ==> #[trigger] m[i] < #[trigger] m[j],
        forall|i: int|
            0 <= i < m.len() ==> 0 <= #[trigger] m[i] < ps.len() && paragraph_texts(ps)[i]
                == ws_normal(ps[m[i]].text) && ws_normal(ps[m[i]].text).len() > 0 && ws_normal(
                ps[m[i]].text,
            ) != "(展开全部)"@,
        forall|p: int|
            0 <= p < ps.len() && ws_normal((#[trigger] ps[p]).text).len() > 0 && ws_normal(
                ps[p].text,
            ) != "(展开全部)"@ ==> m.contains(p),
        m.len() > 0 ==> paragraphs_text(Some(ps)) == Some(join(paragraph_texts(ps), "\n"@)),
        m.len() == 0 ==> paragraphs_text(Some(ps)) is None,
    decreases ps.len(),
{
    if ps.len() == 0 {
        Seq::empty()
    } else {
        let d = ps.drop_last();
        let k = ps.len() - 1;
        let before = every_paragraph_counts(d);
        let t = ws_normal(ps.last().text);
        let m = if t.len() == 0 || t == "(展开全部)"@ {
            before
        } else {
            before.push(k)
        };
        assert forall|i: int| 0 <= i < m.len() implies 0 <= #[trigger] m[i] < ps.len()
            && paragraph_texts(ps)[i] == ws_normal(ps[m[i]].text) && ws_normal(ps[m[i]].text).len()
            > 0 && ws_normal(ps[m[i]].text) != "(展开全部)"@ by {
            if i < before.len() {
                assert(m[i] == before[i]);
                assert(d[before[i]] == ps[m[i]]);
            }
        }
        assert forall|i: int, j: int| 0 <= i < j < m.len() implies #[trigger] m[i] < #[trigger] m[j] by {
            assert(m[i] == before[i]);
            if j < before.len() {
                assert(m[j] == before[j]);
            }
        }
        assert forall|p: int|
            0 <= p < ps.len() && ws_normal((#[trigger] ps[p]).text).len() > 0 && ws_normal(
                ps[p].text,
            ) != "(展开全部)"@ implies m.contains(p) by {
            if p < k {
                assert(d[p] == ps[p]);
                let q = choose|q: int| 0 <= q < before.len() && before[q] == p;
                assert(m[q] == p);
            } else {
                assert(m[before.len() as int] == p);
            }
        }
        m
    }
}

/// The heading of a page gives the title: what stands before the name of the site, where there
/// is one.
pub proof fn the_heading_gives_the_title(v: Seq<FoundView>, title: Seq<char>, rest: Seq<char>)
    requires
        v.len() > 0,
        v[0].text == title + " (豆瓣)"@ + rest,
        forall|i: int| 0 <= i < title.len() ==> !occurs_at(v[0].text, " (豆瓣)"@, i),
    ensures
        !is_blank(title) ==> heading_title(Some(v)) == Some(trim(title)),
        is_blank(title) ==> heading_title(Some(v)) is None,
{
    let s = v[0].text;
    let p = " (豆瓣)"@;
    let n = title.len() as int;
    assert(s.subrange(n, n + p.len()) =~= p);
    assert(occurs_at(s, p, n));
    find_from_is_first(s, p, 0);
    match find_from(s, p, 0) {
        Some(k) => {
            if k < n {
                assert(!occurs_at(s, p, k));
            }
            assert(k == n);
        },
        None => {
            assert(!occurs_at(s, p, n));
        },
    }
    assert(s.take(n) =~= title);
}

/// The authors of a line are those that its links name, each once; without any, the one behind
/// its colon.
pub proof fn links_name_the_authors(line: Seq<char>, links: Seq<FoundView>)
    ensures
        link_names(links) == united(
            links.map_values(
                |l: FoundView|
                    if ws_normal(l.text).len() == 0 {
                        Seq::<Seq<char>>::empty()
                    } else {
                        seq![ws_normal(l.text)]
                    },
            ),
        ),
        link_names(links).len() > 0 ==> line_authors(line, Some(links)) == link_names(links),
        link_names(links).len() == 0 ==> line_authors(line, Some(links)) == line_authors(
            line,
            None,
        ),
        name_behind_colon(trim(line)) matches Some(n) ==> line_authors(line, None) == seq![n],
        name_behind_colon(trim(line)) is None ==> line_authors(line, None).len() == 0,
    decreases links.len(),
{
    let f = |l: FoundView|
        if ws_normal(l.text).len() == 0 {
            Seq::<Seq<char>>::empty()
        } else {
            seq![ws_normal(l.text)]
        };
    if links.len() > 0 {
        let d = links.drop_last();
        links_name_the_authors(line, d);
        assert(links.map_values(f).drop_last() =~= d.map_values(f));
        assert(links.map_values(f).last() == f(links.last()));
        one_is_added(link_names(d), ws_normal(links.last().text));
    } else {
        assert(links.map_values(f).len() == 0);
    }
}

/// The authors of a page stand in the first span that begins with the word for authors.
pub proof fn the_first_span_of_authors_counts(spans: Seq<FoundView>, j: int, k: int)
    requires
        0 <= j <= k < spans.len(),
        "作者"@.is_prefix_of(trim(spans[k].text)),
        forall|i: int| j <= i < k ==> !"作者"@.is_prefix_of(trim((#[trigger] spans[i]).text)),
    ensures
        author_span(spans, j) == Some(k),
    decreases k - j,
{
    if j < k {
        the_first_span_of_authors_counts(spans, j + 1, k);
    }
}

/// The description of a page is that of its paragraphs, and what its head says only where these
/// give none.
pub proof fn paragraphs_come_before_the_head(html: Seq<char>, path: Seq<(Seq<char>, nat)>)
    requires
        intro_path(html) == Some(path),
    ensures
        paragraphs_text(selected_in(html, path, "p"@, ""@)) is Some ==> page_description(html)
            == paragraphs_text(selected_in(html, path, "p"@, ""@)),
        paragraphs_text(selected_in(html, path, "p"@, ""@)) is None ==> page_description(html)
            == first_attr(selected(html, "meta[property=\"og:description\"]"@, "content"@)),
{
}

} // verus!
