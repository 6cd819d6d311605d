//! Importing a book: which sources to look at, and what they add up to.
use vstd::prelude::*;
use vstd::string::*;

use crate::agent::{DescriptionFusion, TokenUsage};
use crate::ingestion::{
    brief, brief_error, crawled_authors, crawled_title, crawled_title_author, filled,
    inherit_series, inherited, keep_filled, pair_views, plain_title, CancelToken, IngestionError,
    PendingSource, PreparedImport, SuggestionMatch, TaskProgress,
};
use crate::spider::{add_all_new, add_new, union_is_distinct, with_all_new, with_new};
use crate::text::{
    blank, clone_opt, clone_strings, contains, dec, dec_u64, has_part, is_blank, join, opt_str,
    split, split_on, strs, strs_push, trim, trim_is_tight, trimmed,
};
use crate::utils::{tidied, tidy};
use crate::seqs::{filter_from, filter_none, filter_places, filter_step};

verus! {

/// `acc` with `o` behind it, where it is not blank and not among them.
pub open spec fn with_filled(acc: Seq<Seq<char>>, o: Option<Seq<char>>) -> Seq<Seq<char>> {
    match filled(o) {
        Some(t) => with_new(acc, t),
        None => acc,
    }
}

fn add_filled(acc: &mut Vec<String>, o: &Option<String>)
    ensures
        strs(final(acc)@) == with_filled(strs(old(acc)@), opt_str(*o)),
{
    match o {
        Some(t) => {
            if !blank(t) {
                add_new(acc, t);
            }
        },
        None => {},
    }
}

/// Whether a text is the address of a page of the review site.
pub open spec fn is_douban_link(u: Seq<char>) -> bool {
    has_part(u, "book.douban.com/subject/"@)
}

/// The addresses with those of `links` behind them that are addresses of the review site,
/// each once.
pub open spec fn with_links(acc: Seq<Seq<char>>, links: Seq<Seq<char>>) -> Seq<Seq<char>>
    decreases links.len(),
{
    if links.len() == 0 {
        acc
    } else {
        let before = with_links(acc, links.drop_last());
        let u = trim(links.last());
        if u.len() > 0 && is_douban_link(u) {
            with_filled(before, Some(u))
        } else {
            before
        }
    }
}

/// The addresses with those of `urls` behind them, each once; blank ones do not count.
pub open spec fn with_urls(acc: Seq<Seq<char>>, urls: Seq<Seq<char>>) -> Seq<Seq<char>>
    decreases urls.len(),
{
    if urls.len() == 0 {
        acc
    } else {
        with_filled(with_urls(acc, urls.drop_last()), Some(urls.last()))
    }
}

/// The addresses of the review site to look at: those that were given, then those that
/// entries lead to.
pub open spec fn douban_list(links: Seq<Seq<char>>, urls: Seq<Seq<char>>) -> Seq<Seq<char>> {
    with_urls(with_links(Seq::empty(), links), urls)
}

/// The addresses of the review site to look at: those that were given, then those that
/// entries lead to.
pub fn list_douban(links: &Vec<String>, urls: &Vec<String>) -> (r: Vec<String>)
    ensures
        strs(r@) == douban_list(strs(links@), strs(urls@)),
{
    let mut out: Vec<String> = Vec::new();
    let ghost ls = strs(links@);
    let ghost us = strs(urls@);
    let mut i: usize = 0;
    assert(ls.take(0) =~= Seq::<Seq<char>>::empty());
    assert(strs(out@) =~= Seq::<Seq<char>>::empty());
    while i < links.len()
        invariant
            i <= links@.len(),
            ls == strs(links@),
            strs(out@) == with_links(Seq::empty(), ls.take(i as int)),
        decreases links@.len() - i,
    {
        assert(ls.take(i + 1).drop_last() =~= ls.take(i as int));
        assert(ls.take(i + 1).last() == links@[i as int]@);
        let u = trimmed(&links[i]);
        if !u.as_str().is_empty() && contains(&u, "book.douban.com/subject/") {
            add_filled(&mut out, &Some(u));
        }
        i += 1;
    }
    assert(ls.take(links@.len() as int) =~= ls);
    let ghost first = strs(out@);
    let mut k: usize = 0;
    assert(us.take(0) =~= Seq::<Seq<char>>::empty());
    while k < urls.len()
        invariant
            k <= urls@.len(),
            us == strs(urls@),
            strs(out@) == with_urls(first, us.take(k as int)),
        decreases urls@.len() - k,
    {
        assert(us.take(k + 1).drop_last() =~= us.take(k as int));
        assert(us.take(k + 1).last() == urls@[k as int]@);
        add_filled(&mut out, &Some(urls[k].as_str().to_owned()));
        k += 1;
    }
    assert(us.take(urls@.len() as int) =~= us);
    out
}

/// The parts of a line of addresses.
pub fn links_in(line: &str) -> (r: Vec<String>)
    ensures
        strs(r@) == split_on(line@, seq![' ', ',', '，', '\t']),
{
    let mut seps: Vec<char> = Vec::new();
    seps.push(' ');
    seps.push(',');
    seps.push('，');
    seps.push('\t');
    assert(seps@ =~= seq![' ', ',', '，', '\t']);
    split(line, &seps)
}

/// No address is listed twice.
pub proof fn listed_once(links: Seq<Seq<char>>, urls: Seq<Seq<char>>)
    ensures
        douban_list(links, urls).no_duplicates(),
{
    links_once(Seq::empty(), links);
    urls_once(with_links(Seq::empty(), links), urls);
}

proof fn links_once(acc: Seq<Seq<char>>, links: Seq<Seq<char>>)
    requires
        acc.no_duplicates(),
    ensures
        with_links(acc, links).no_duplicates(),
    decreases links.len(),
{
    if links.len() > 0 {
        links_once(acc, links.drop_last());
    }
}

proof fn urls_once(acc: Seq<Seq<char>>, urls: Seq<Seq<char>>)
    requires
        acc.no_duplicates(),
    ensures
        with_urls(acc, urls).no_duplicates(),
    decreases urls.len(),
{
    if urls.len() > 0 {
        urls_once(acc, urls.drop_last());
    }
}

// ---- tags ----

/// `acc` with the tags of the entries that it does not hold behind it.
pub open spec fn with_entry_tags(acc: Seq<Seq<char>>, ms: Seq<SuggestionMatch>) -> Seq<Seq<char>>
    decreases ms.len(),
{
    if ms.len() == 0 {
        acc
    } else {
        with_all_new(with_entry_tags(acc, ms.drop_last()), tidy(strs(ms.last().tags@)))
    }
}

/// The tags that a book has before the fixed ones: those that were given, and for a book of
/// several entries the tags of all of them, none twice.
pub open spec fn united_tags(own: Seq<Seq<char>>, ms: Seq<SuggestionMatch>) -> Seq<Seq<char>> {
    if ms.len() > 1 {
        with_entry_tags(with_all_new(Seq::empty(), tidy(own)), ms)
    } else {
        tidy(own)
    }
}

/// The tags of a book: those that were given and those of its entries, then the fixed ones; the
/// tag of the genre where there are none.
pub open spec fn import_tags(
    own: Seq<Seq<char>>,
    ms: Seq<SuggestionMatch>,
    fixed: Seq<Seq<char>>,
) -> Seq<Seq<char>> {
    let all = with_all_new(united_tags(own, ms), fixed);
    if all.len() == 0 {
        seq!["推理小说"@]
    } else {
        all
    }
}

/// The tags of a book: those that were given and those of its entries, then the fixed ones; the
/// tag of the genre where there are none.
pub fn tags_for_import(
    own: &Vec<String>,
    entries: &Vec<SuggestionMatch>,
    fixed: &Vec<String>,
) -> (r: Vec<String>)
    ensures
        strs(r@) == import_tags(strs(own@), entries@, strs(fixed@)),
{
    let given = tidied(own);
    let mut tags: Vec<String> = Vec::new();
    assert(strs(tags@) =~= Seq::<Seq<char>>::empty());
    if entries.len() > 1 {
        add_all_new(&mut tags, &given);
        let ghost first = strs(tags@);
        let mut i: usize = 0;
        assert(entries@.take(0) =~= Seq::<SuggestionMatch>::empty());
        while i < entries.len()
            invariant
                i <= entries@.len(),
                strs(tags@) == with_entry_tags(first, entries@.take(i as int)),
            decreases entries@.len() - i,
        {
            assert(entries@.take(i + 1).drop_last() =~= entries@.take(i as int));
            assert(entries@.take(i + 1).last() == entries@[i as int]);
            add_all_new(&mut tags, &tidied(&entries[i].tags));
            i += 1;
        }
        assert(entries@.take(entries@.len() as int) =~= entries@);
    } else {
        tags = given;
    }
    add_all_new(&mut tags, fixed);
    assert(strs(tags@).len() == tags@.len());
    if tags.len() == 0 {
        assert(strs(tags@) =~= Seq::<Seq<char>>::empty());
        tags.push("推理小说".to_owned());
        assert(strs(tags@) =~= seq!["推理小说"@]);
    }
    tags
}

proof fn all_new_holds(acc: Seq<Seq<char>>, xs: Seq<Seq<char>>, x: Seq<char>)
    requires
        acc.contains(x) || xs.contains(x),
    ensures
        with_all_new(acc, xs).contains(x),
    decreases xs.len(),
{
    if xs.len() > 0 {
        let init = xs.drop_last();
        let before = with_all_new(acc, init);
        if acc.contains(x) || init.contains(x) {
            all_new_holds(acc, init, x);
            let i = choose|i: int| 0 <= i < before.len() && before[i] == x;
            assert(with_all_new(acc, xs)[i] == x);
        } else {
            let i = choose|i: int| 0 <= i < xs.len() && xs[i] == x;
            assert(i == xs.len() - 1) by {
                if i < init.len() {
                    assert(init[i] == x);
                }
            }
            let now = with_all_new(acc, xs);
            if !before.contains(x) {
                assert(now[now.len() - 1] == x);
            }
        }
    }
}

/// Every fixed tag is among the tags of a book, and a book has at least one tag.
pub proof fn fixed_tags_are_kept(
    own: Seq<Seq<char>>,
    ms: Seq<SuggestionMatch>,
    fixed: Seq<Seq<char>>,
    t: Seq<char>,
)
    ensures
        import_tags(own, ms, fixed).len() > 0,
        fixed.contains(t) ==> import_tags(own, ms, fixed).contains(t),
{
    if fixed.contains(t) {
        all_new_holds(united_tags(own, ms), fixed, t);
    }
}

proof fn entry_tags_are_held(acc: Seq<Seq<char>>, ms: Seq<SuggestionMatch>, t: Seq<char>)
    requires
        acc.no_duplicates(),
    ensures
        with_entry_tags(acc, ms).no_duplicates(),
        acc.contains(t) ==> with_entry_tags(acc, ms).contains(t),
        (exists|k: int| 0 <= k < ms.len() && tidy(strs((#[trigger] ms[k]).tags@)).contains(t))
            ==> with_entry_tags(acc, ms).contains(t),
    decreases ms.len(),
{
    if ms.len() > 0 {
        let init = ms.drop_last();
        entry_tags_are_held(acc, init, t);
        union_is_distinct(with_entry_tags(acc, init), tidy(strs(ms.last().tags@)));
        if exists|k: int| 0 <= k < ms.len() && tidy(strs((#[trigger] ms[k]).tags@)).contains(t) {
            let k = choose|k: int|
                0 <= k < ms.len() && tidy(strs((#[trigger] ms[k]).tags@)).contains(t);
            if k < init.len() {
                assert(init[k] == ms[k]);
            }
        }
    }
}

/// A book of several entries has the tags that were given and those of each entry, none twice.
pub proof fn entry_tags_are_united(
    own: Seq<Seq<char>>,
    ms: Seq<SuggestionMatch>,
    fixed: Seq<Seq<char>>,
    t: Seq<char>,
)
    requires
        ms.len() > 1,
    ensures
        import_tags(own, ms, fixed).no_duplicates(),
        tidy(own).contains(t) ==> import_tags(own, ms, fixed).contains(t),
        (exists|k: int| 0 <= k < ms.len() && tidy(strs((#[trigger] ms[k]).tags@)).contains(t))
            ==> import_tags(own, ms, fixed).contains(t),
{
    union_is_distinct(Seq::empty(), tidy(own));
    let first = with_all_new(Seq::empty(), tidy(own));
    entry_tags_are_held(first, ms, t);
    union_is_distinct(united_tags(own, ms), fixed);
}

// ---- the course of an import ----

/// What an import does next.
#[derive(Debug, Clone, Copy, PartialEq, Eq, Structural)]
pub enum Stage {
    /// Entries are looked at.
    Clasp,
    /// Pages are looked at.
    Douban,
    /// The description is settled.
    Describe,
    /// The cover is looked for.
    Cover,
}

/// What is to be done next.
#[derive(Debug)]
pub enum ImportAction {
    /// Look at an entry; tell how far the import is.
    CrawlClasp(usize, TaskProgress),
    /// Sum the entries up.
    SettleClasp,
    /// Look at a page; tell how far the import is.
    CrawlDouban(usize, TaskProgress),
    /// Sum the pages up.
    SettleDouban,
    /// Settle the description; tell how far the import is, where a model is asked.
    Describe(Option<TaskProgress>),
    /// Look for the cover on the net; tell how far the import is.
    FetchCover(TaskProgress),
    /// Take the cover of the book itself.
    OwnCover,
}

/// An import as it goes on.
#[derive(Debug)]
pub struct ImportDraft {
    pub stage: Stage,
    pub file_path: String,
    pub original_path: String,
    pub title: String,
    pub author: String,
    pub tags: Vec<String>,
    /// The entries that were chosen.
    pub matches: Vec<SuggestionMatch>,
    /// The addresses that were given.
    pub links: Vec<String>,
    /// Whether several descriptions are made one.
    pub merge: bool,
    pub clasp_ids: Vec<String>,
    pub douban_urls: Vec<String>,
    pub clasp_summaries: Vec<String>,
    pub douban_summaries: Vec<String>,
    pub cover_urls: Vec<String>,
    pub series_pairs: Vec<(String, Option<i64>)>,
    pub series_name: Option<String>,
    pub series_order: Option<i64>,
    pub sources_clasp: Vec<PendingSource>,
    pub sources_douban: Vec<PendingSource>,
    pub description: String,
    pub llm: Option<(String, TokenUsage)>,
    pub degraded: Option<String>,
}

/// The entries that have an id.
pub open spec fn with_ids(ms: Seq<SuggestionMatch>) -> Seq<SuggestionMatch> {
    ms.filter(|m: SuggestionMatch| !is_blank(m.id@))
}

fn keep_with_ids(ms: Vec<SuggestionMatch>) -> (r: Vec<SuggestionMatch>)
    ensures
        r@ == with_ids(ms@),
{
    let ghost all = ms@;
    let ghost f = |m: SuggestionMatch| !is_blank(m.id@);
    let mut out: Vec<SuggestionMatch> = Vec::new();
    let mut rest = ms;
    let mut i: usize = 0;
    let n: usize = rest.len();
    proof {
        filter_none(all, f);
        assert(rest@ =~= all.skip(0));
    }
    while i < n
        invariant
            i <= n,
            n == all.len(),
            f == |m: SuggestionMatch| !is_blank(m.id@),
            rest@ == all.skip(i as int),
            out@ == all.take(i as int).filter(f),
        decreases n - i,
    {
        assert(rest@[0] == all[i as int]);
        let m = rest.remove(0);
        proof {
            assert(rest@ =~= all.skip(i + 1));
            filter_step(all, i as int, f);
        }
        if !blank(&m.id) {
            out.push(m);
        }
        i += 1;
    }
    assert(all.take(n as int) =~= all);
    out
}

/// A line on how far an import is with its sources.
pub open spec fn source_message(kind: Seq<char>, i: nat, n: nat, what: Seq<char>) -> Seq<char> {
    "爬取 "@ + kind + "来源 "@ + dec(i + 1) + "/"@ + dec(n) + "："@ + what
}

fn source_progress(kind: &str, i: usize, n: usize, what: &str) -> (r: TaskProgress)
    requires
        i < n,
        n <= i64::MAX,
    ensures
        r.phase@ == "source"@,
        r.current == i + 1,
        r.total == n,
        r.message@ == source_message(kind@, i as nat, n as nat, what@),
{
    TaskProgress {
        phase: "source".to_owned(),
        current: i as i64 + 1,
        total: n as i64,
        message: "爬取 ".to_owned().concat(kind).concat("来源 ").concat(
            &dec_u64(i as u64 + 1),
        ).concat("/").concat(&dec_u64(n as u64)).concat("：").concat(what),
    }
}

impl ImportDraft {
    /// Whether everything but the stage and what it brings is as in `o`.
    pub open spec fn same_book(self, o: ImportDraft) -> bool {
        &&& self.file_path == o.file_path
        &&& self.original_path == o.original_path
        &&& self.tags == o.tags
        &&& self.matches == o.matches
        &&& self.links == o.links
        &&& self.merge == o.merge
    }

    /// The invariant of an import: one id and one source for each entry that was looked at;
    /// no more sources than entries and addresses.
    pub open spec fn wf(self) -> bool {
        &&& self.clasp_ids@.len() == self.sources_clasp@.len()
        &&& self.sources_clasp@.len() <= self.matches@.len()
        &&& self.stage != Stage::Clasp ==> self.sources_clasp@.len() == self.matches@.len()
        &&& self.stage == Stage::Clasp ==> self.sources_douban@.len() == 0
        &&& self.stage == Stage::Douban ==> self.sources_douban@.len() <= self.douban_urls@.len()
        &&& self.matches@.len() <= i64::MAX
        &&& self.stage != Stage::Clasp ==> self.douban_urls@.len() <= i64::MAX
    }

    /// An import before anything was looked at.
    pub fn start(
        file_path: String,
        original_path: Option<String>,
        title: &str,
        author: &str,
        tags: &Vec<String>,
        fixed_tags: &Vec<String>,
        matches: Vec<SuggestionMatch>,
        links: Vec<String>,
        merge: bool,
    ) -> (r: ImportDraft)
        requires
            matches@.len() <= i64::MAX,
        ensures
            r.wf(),
            r.stage == Stage::Clasp,
            r.file_path == file_path,
            r.original_path@ == (match original_path {
                Some(p) => p@,
                None => file_path@,
            }),
            r.title@ == title@,
            r.author@ == author@,
            strs(r.tags@) == import_tags(strs(tags@), with_ids(matches@), strs(fixed_tags@)),
            r.matches@ == with_ids(matches@),
            r.links == links,
            r.merge == merge,
            r.clasp_ids@.len() == 0,
            r.douban_urls@.len() == 0,
            r.clasp_summaries@.len() == 0,
            r.douban_summaries@.len() == 0,
            r.cover_urls@.len() == 0,
            r.series_pairs@.len() == 0,
            r.series_name is None,
            r.series_order is None,
            r.sources_clasp@.len() == 0,
            r.sources_douban@.len() == 0,
    {
        proof {
            filter_from(matches@, |m: SuggestionMatch| !is_blank(m.id@));
        }
        let original = match original_path {
            Some(p) => p,
            None => file_path.as_str().to_owned(),
        };
        let kept = keep_with_ids(matches);
        ImportDraft {
            stage: Stage::Clasp,
            file_path,
            original_path: original,
            title: title.to_owned(),
            author: author.to_owned(),
            tags: tags_for_import(tags, &kept, fixed_tags),
            matches: kept,
            links,
            merge,
            clasp_ids: Vec::new(),
            douban_urls: Vec::new(),
            clasp_summaries: Vec::new(),
            douban_summaries: Vec::new(),
            cover_urls: Vec::new(),
            series_pairs: Vec::new(),
            series_name: None,
            series_order: None,
            sources_clasp: Vec::new(),
            sources_douban: Vec::new(),
            description: String::new(),
            llm: None,
            degraded: None,
        }
    }

    /// The descriptions that count: those of entries, else those of pages.
    pub open spec fn descriptions(self) -> Seq<Seq<char>> {
        if self.clasp_summaries@.len() == 0 {
            strs(self.douban_summaries@)
        } else {
            strs(self.clasp_summaries@)
        }
    }

    /// Whether a model is asked for the description.
    pub open spec fn asks_model(self) -> bool {
        self.descriptions().len() > 1 && self.merge
    }

    /// Whether the cover is looked for on the net.
    pub open spec fn seeks_cover(self) -> bool {
        self.cover_urls@.len() > 0 || self.douban_urls@.len() > 0
    }

    /// What is to be done next. A task that was asked to stop ends before an entry, a page, a
    /// model or a cover is asked for.
    pub fn next(&self, cancel: &CancelToken) -> (r: Result<ImportAction, IngestionError>)
        requires
            self.wf(),
        ensures
            match r {
                Ok(ImportAction::CrawlClasp(i, p)) => {
                    &&& !cancel.cancelled
                    &&& self.stage == Stage::Clasp
                    &&& i == self.sources_clasp@.len()
                    &&& i < self.matches@.len()
                    &&& p.phase@ == "source"@
                    &&& p.current == i + 1
                    &&& p.total == self.matches@.len()
                    &&& p.message@ == source_message(
                        "claspclub "@,
                        i as nat,
                        self.matches@.len(),
                        self.matches@[i as int].title@,
                    )
                },
                Ok(ImportAction::SettleClasp) => self.stage == Stage::Clasp
                    && self.sources_clasp@.len() == self.matches@.len(),
                Ok(ImportAction::CrawlDouban(i, p)) => {
                    &&& !cancel.cancelled
                    &&& self.stage == Stage::Douban
                    &&& i == self.sources_douban@.len()
                    &&& i < self.douban_urls@.len()
                    &&& p.phase@ == "source"@
                    &&& p.current == i + 1
                    &&& p.total == self.douban_urls@.len()
                    &&& p.message@ == source_message(
                        "豆瓣"@,
                        i as nat,
                        self.douban_urls@.len(),
                        self.douban_urls@[i as int]@,
                    )
                },
                Ok(ImportAction::SettleDouban) => self.stage == Stage::Douban
                    && self.sources_douban@.len() == self.douban_urls@.len(),
                Ok(ImportAction::Describe(p)) => {
                    &&& self.stage == Stage::Describe
                    &&& p is Some <==> self.asks_model()
                    &&& p matches Some(t) ==> !cancel.cancelled && t.phase@ == "fusion"@
                        && t.current == 0 && t.total == 0 && t.message@ == "LLM 合并简介中…"@
                },
                Ok(ImportAction::FetchCover(t)) => {
                    &&& !cancel.cancelled
                    &&& self.stage == Stage::Cover
                    &&& self.seeks_cover()
                    &&& t.phase@ == "cover"@
                    &&& t.current == 0
                    &&& t.total == 0
                    &&& t.message@ == "下载封面中…"@
                },
                Ok(ImportAction::OwnCover) => self.stage == Stage::Cover && !self.seeks_cover(),
                Err(e) => {
                    &&& e is Cancelled
                    &&& cancel.cancelled
                    &&& match self.stage {
                        Stage::Clasp => self.sources_clasp@.len() < self.matches@.len(),
                        Stage::Douban => self.sources_douban@.len() < self.douban_urls@.len(),
                        Stage::Describe => self.asks_model(),
                        Stage::Cover => self.seeks_cover(),
                    }
                },
            },
    {
        match self.stage {
            Stage::Clasp => {
                let i: usize = self.sources_clasp.len();
                if i < self.matches.len() {
                    if cancel.is_cancelled() {
                        return Err(IngestionError::Cancelled);
                    }
                    return Ok(
                        ImportAction::CrawlClasp(
                            i,
                            source_progress(
                                "claspclub ",
                                i,
                                self.matches.len(),
                                &self.matches[i].title,
                            ),
                        ),
                    );
                }
                Ok(ImportAction::SettleClasp)
            },
            Stage::Douban => {
                let i: usize = self.sources_douban.len();
                if i < self.douban_urls.len() {
                    if cancel.is_cancelled() {
                        return Err(IngestionError::Cancelled);
                    }
                    return Ok(
                        ImportAction::CrawlDouban(
                            i,
                            source_progress(
                                "豆瓣",
                                i,
                                self.douban_urls.len(),
                                &self.douban_urls[i],
                            ),
                        ),
                    );
                }
                Ok(ImportAction::SettleDouban)
            },
            Stage::Describe => {
                let n: usize = if self.clasp_summaries.len() == 0 {
                    self.douban_summaries.len()
                } else {
                    self.clasp_summaries.len()
                };
                assert(n == self.descriptions().len());
                if n > 1 && self.merge {
                    if cancel.is_cancelled() {
                        return Err(IngestionError::Cancelled);
                    }
                    return Ok(
                        ImportAction::Describe(
                            Some(
                                TaskProgress {
                                    phase: "fusion".to_owned(),
                                    current: 0,
                                    total: 0,
                                    message: "LLM 合并简介中…".to_owned(),
                                },
                            ),
                        ),
                    );
                }
                Ok(ImportAction::Describe(None))
            },
            Stage::Cover => {
                if self.cover_urls.len() > 0 || self.douban_urls.len() > 0 {
                    if cancel.is_cancelled() {
                        return Err(IngestionError::Cancelled);
                    }
                    return Ok(
                        ImportAction::FetchCover(
                            TaskProgress {
                                phase: "cover".to_owned(),
                                current: 0,
                                total: 0,
                                message: "下载封面中…".to_owned(),
                            },
                        ),
                    );
                }
                Ok(ImportAction::OwnCover)
            },
        }
    }

    /// Adds the next entry as it was found.
    pub fn clasp_crawled(&mut self, found: PendingSource)
        requires
            old(self).wf(),
            old(self).stage == Stage::Clasp,
            old(self).sources_clasp@.len() < old(self).matches@.len(),
        ensures
            final(self).wf(),
            final(self).stage == Stage::Clasp,
            final(self).same_book(*old(self)),
            final(self).title == old(self).title,
            final(self).author == old(self).author,
            final(self).douban_summaries == old(self).douban_summaries,
            final(self).series_name == old(self).series_name,
            final(self).series_order == old(self).series_order,
            final(self).sources_douban == old(self).sources_douban,
            ({
                let m = old(self).matches@[old(self).sources_clasp@.len() as int];
                let quick = filled(opt_str(m.summary));
                &&& strs(final(self).clasp_ids@) == strs(old(self).clasp_ids@).push(m.id@)
                &&& strs(final(self).clasp_summaries@) == (match quick {
                    Some(s) => strs(old(self).clasp_summaries@).push(s),
                    None => match found.summary {
                        Some(s) => strs(old(self).clasp_summaries@).push(s@),
                        None => strs(old(self).clasp_summaries@),
                    },
                })
                &&& strs(final(self).cover_urls@) == with_filled(
                    with_filled(strs(old(self).cover_urls@), opt_str(m.cover_url)),
                    opt_str(found.cover_url),
                )
                &&& strs(final(self).douban_urls@) == with_filled(
                    strs(old(self).douban_urls@),
                    match found.douban_url {
                        Some(u) => Some(u@),
                        None => filled(opt_str(m.douban_url)),
                    },
                )
                &&& final(self).series_pairs@ == (match found.series {
                    Some(s) => old(self).series_pairs@.push(s),
                    None => old(self).series_pairs@,
                })
                &&& final(self).sources_clasp@ == old(self).sources_clasp@.push(
                    (PendingSource {
                        summary: if quick is Some {
                            found.summary
                        } else {
                            None
                        },
                        douban_url: None,
                        series: None,
                        ..found
                    }),
                )
            }),
    {
        let i: usize = self.sources_clasp.len();
        let id = self.matches[i].id.as_str().to_owned();
        proof {
            strs_push(self.clasp_ids@, id);
        }
        self.clasp_ids.push(id);
        add_filled(&mut self.cover_urls, &self.matches[i].cover_url);
        let mut found = found;
        let quick = keep_filled(&self.matches[i].summary);
        match quick {
            Some(s) => {
                proof {
                    strs_push(self.clasp_summaries@, s);
                }
                self.clasp_summaries.push(s);
            },
            None => {
                match found.summary.take() {
                    Some(s) => {
                        proof {
                            strs_push(self.clasp_summaries@, s);
                        }
                        self.clasp_summaries.push(s);
                    },
                    None => {},
                }
            },
        }
        let derived = match found.douban_url.take() {
            Some(u) => Some(u),
            None => keep_filled(&self.matches[i].douban_url),
        };
        add_filled(&mut self.douban_urls, &derived);
        add_filled(&mut self.cover_urls, &found.cover_url);
        match found.series.take() {
            Some(s) => {
                self.series_pairs.push(s);
            },
            None => {},
        }
        self.sources_clasp.push(found);
    }

    /// Sums the entries up: the series that they agree on, and the addresses to look at.
    pub fn settle_clasp(&mut self)
        requires
            old(self).wf(),
            old(self).stage == Stage::Clasp,
            old(self).sources_clasp@.len() == old(self).matches@.len(),
            old(self).links@.len() + old(self).douban_urls@.len() <= i64::MAX,
        ensures
            final(self).wf(),
            final(self).stage == Stage::Douban,
            final(self).same_book(*old(self)),
            final(self).title == old(self).title,
            final(self).author == old(self).author,
            final(self).clasp_ids == old(self).clasp_ids,
            final(self).clasp_summaries == old(self).clasp_summaries,
            final(self).douban_summaries == old(self).douban_summaries,
            final(self).cover_urls == old(self).cover_urls,
            final(self).series_pairs == old(self).series_pairs,
            final(self).sources_clasp == old(self).sources_clasp,
            final(self).sources_douban == old(self).sources_douban,
            match inherited(pair_views(old(self).series_pairs@)) {
                Some(v) => opt_str(final(self).series_name) == Some(v.0)
                    && final(self).series_order == v.1,
                None => final(self).series_name == old(self).series_name
                    && final(self).series_order == old(self).series_order,
            },
            strs(final(self).douban_urls@) == douban_list(
                strs(old(self).links@),
                strs(old(self).douban_urls@),
            ),
    {
        match inherit_series(&self.series_pairs) {
            Some((name, order)) => {
                self.series_name = Some(name);
                self.series_order = order;
            },
            None => {},
        }
        let list = list_douban(&self.links, &self.douban_urls);
        proof {
            list_is_short(strs(self.links@), strs(self.douban_urls@));
            assert(strs(list@).len() == list@.len());
        }
        self.douban_urls = list;
        self.stage = Stage::Douban;
    }

    /// Adds the next page as it was found.
    pub fn douban_crawled(&mut self, found: PendingSource)
        requires
            old(self).wf(),
            old(self).stage == Stage::Douban,
            old(self).sources_douban@.len() < old(self).douban_urls@.len(),
        ensures
            final(self).wf(),
            *final(self) == (ImportDraft {
                douban_summaries: final(self).douban_summaries,
                sources_douban: final(self).sources_douban,
                ..*old(self)
            }),
            strs(final(self).douban_summaries@) == (match found.summary {
                Some(s) => strs(old(self).douban_summaries@).push(s@),
                None => strs(old(self).douban_summaries@),
            }),
            final(self).sources_douban@ == old(self).sources_douban@.push(found),
    {
        match clone_opt(&found.summary) {
            Some(s) => {
                proof {
                    strs_push(self.douban_summaries@, s);
                }
                self.douban_summaries.push(s);
            },
            None => {},
        }
        self.sources_douban.push(found);
    }

    /// Sums the pages up: the title and the author that the sources give.
    pub fn settle_douban(&mut self)
        requires
            old(self).wf(),
            old(self).stage == Stage::Douban,
            old(self).sources_douban@.len() == old(self).douban_urls@.len(),
        ensures
            final(self).wf(),
            *final(self) == (ImportDraft {
                stage: Stage::Describe,
                title: final(self).title,
                author: final(self).author,
                ..*old(self)
            }),
            final(self).title@ == (match crawled_title(
                old(self).sources_clasp@,
                old(self).matches@,
                old(self).sources_douban@,
            ) {
                Some(t) => plain_title(t),
                None => old(self).title@,
            }),
            final(self).author@ == ({
                let authors = crawled_authors(
                    old(self).sources_clasp@,
                    old(self).matches@,
                    old(self).sources_douban@,
                );
                if authors.len() > 0 {
                    join(authors, "、"@)
                } else {
                    old(self).author@
                }
            }),
    {
        let (title, author) = crawled_title_author(
            &self.title,
            &self.author,
            &self.sources_clasp,
            &self.matches,
            &self.sources_douban,
        );
        self.title = title;
        self.author = author;
        self.stage = Stage::Describe;
    }

    /// The descriptions that count.
    pub fn description_sources(&self) -> (r: Vec<String>)
        ensures
            strs(r@) == self.descriptions(),
    {
        if self.clasp_summaries.len() == 0 {
            clone_strings(&self.douban_summaries)
        } else {
            clone_strings(&self.clasp_summaries)
        }
    }

    /// Takes the description as it was settled.
    pub fn described(&mut self, choice: DescriptionChoice)
        requires
            old(self).wf(),
            old(self).stage == Stage::Describe,
        ensures
            final(self).wf(),
            *final(self) == (ImportDraft {
                stage: Stage::Cover,
                description: choice.text,
                llm: choice.llm,
                degraded: choice.degraded,
                ..*old(self)
            }),
    {
        self.description = choice.text;
        self.llm = choice.llm;
        self.degraded = choice.degraded;
        self.stage = Stage::Cover;
    }

    /// The book that is ready to be recorded, with the cover that was found.
    pub fn finish(self, cover_path: Option<String>) -> (r: PreparedImport)
        requires
            self.wf(),
            self.stage == Stage::Cover,
        ensures
            r.file_path == self.file_path,
            r.original_path == self.original_path,
            r.title == self.title,
            r.author == self.author,
            r.tags == self.tags,
            r.description == self.description,
            r.series_name == self.series_name,
            r.series_order == self.series_order,
            r.clasp_ids == self.clasp_ids,
            r.douban_urls == self.douban_urls,
            r.library_file@.len() == 0,
            r.cover_path == cover_path,
            r.cover_override is None,
            r.sources_clasp == self.sources_clasp,
            r.sources_douban == self.sources_douban,
            r.llm_usage@ == (match self.llm {
                Some(u) => seq![u],
                None => Seq::empty(),
            }),
            opt_str(r.fusion_model) == (match self.llm {
                Some(u) => Some(u.0@),
                None => None,
            }),
            r.fusion_error == self.degraded,
    {
        let mut llm_usage: Vec<(String, TokenUsage)> = Vec::new();
        let mut fusion_model: Option<String> = None;
        match self.llm {
            Some(u) => {
                fusion_model = Some(u.0.as_str().to_owned());
                llm_usage.push(u);
                assert(llm_usage@ =~= seq![u]);
            },
            None => {
                assert(llm_usage@ =~= Seq::<(String, TokenUsage)>::empty());
            },
        }
        PreparedImport {
            file_path: self.file_path,
            original_path: self.original_path,
            title: self.title,
            author: self.author,
            tags: self.tags,
            description: self.description,
            series_name: self.series_name,
            series_order: self.series_order,
            clasp_ids: self.clasp_ids,
            douban_urls: self.douban_urls,
            library_file: String::new(),
            cover_path,
            cover_override: None,
            sources_clasp: self.sources_clasp,
            sources_douban: self.sources_douban,
            llm_usage,
            fusion_model,
            fusion_error: self.degraded,
        }
    }
}

proof fn list_is_short(links: Seq<Seq<char>>, urls: Seq<Seq<char>>)
    ensures
        douban_list(links, urls).len() <= links.len() + urls.len(),
{
    links_are_short(Seq::empty(), links);
    urls_are_short(with_links(Seq::empty(), links), urls);
}

proof fn links_are_short(acc: Seq<Seq<char>>, links: Seq<Seq<char>>)
    ensures
        with_links(acc, links).len() <= acc.len() + links.len(),
    decreases links.len(),
{
    if links.len() > 0 {
        links_are_short(acc, links.drop_last());
    }
}

proof fn urls_are_short(acc: Seq<Seq<char>>, urls: Seq<Seq<char>>)
    ensures
        with_urls(acc, urls).len() <= acc.len() + urls.len(),
    decreases urls.len(),
{
    if urls.len() > 0 {
        urls_are_short(acc, urls.drop_last());
    }
}

// ---- the description ----

/// A description that was settled, the model that made it, and why none did.
#[derive(Debug)]
pub struct DescriptionChoice {
    pub text: String,
    pub llm: Option<(String, TokenUsage)>,
    pub degraded: Option<String>,
}

/// How a description is settled.
#[derive(Debug)]
pub enum DescriptionPlan {
    Done(DescriptionChoice),
    /// These are to be made one.
    Fuse(Vec<String>),
}

/// How a description is settled: the only one is taken; of several the first, or a model
/// makes them one where that is wanted and one is set.
pub fn pick_import_description(summaries: &Vec<String>, merge: bool, configured: bool) -> (r:
    DescriptionPlan)
    ensures
        ({
            let descs = tidy(strs(summaries@));
            match r {
                DescriptionPlan::Done(c) => {
                    &&& c.llm is None
                    &&& if descs.len() == 0 {
                        c.text@.len() == 0 && c.degraded is None
                    } else {
                        &&& c.text@ == descs[0]
                        &&& descs.len() == 1 || !merge || !configured
                        &&& opt_str(c.degraded) == (if descs.len() > 1 && merge {
                            Some("未配置 LLM，已取第一本简介"@)
                        } else {
                            None
                        })
                    }
                },
                DescriptionPlan::Fuse(v) => descs.len() > 1 && merge && configured && strs(v@)
                    == descs,
            }
        }),
{
    let descs = tidied(summaries);
    assert(strs(descs@).len() == descs@.len());
    if descs.len() == 0 {
        return DescriptionPlan::Done(
            DescriptionChoice { text: String::new(), llm: None, degraded: None },
        );
    }
    assert(strs(descs@)[0] == descs@[0]@);
    if descs.len() > 1 && merge && configured {
        return DescriptionPlan::Fuse(descs);
    }
    let degraded = if descs.len() > 1 && merge {
        Some("未配置 LLM，已取第一本简介".to_owned())
    } else {
        None
    };
    DescriptionPlan::Done(
        DescriptionChoice { text: descs[0].as_str().to_owned(), llm: None, degraded },
    )
}

/// The description once a model was asked: what it made, or the first where it failed.
pub fn after_fusion(descs: &Vec<String>, outcome: Result<DescriptionFusion, String>) -> (r:
    DescriptionChoice)
    requires
        descs@.len() > 0,
    ensures
        match outcome {
            Ok(f) => r.text == f.text && r.llm == f.llm && r.degraded == f.degraded,
            Err(e) => r.text@ == descs@[0]@ && r.llm is None && opt_str(r.degraded) == Some(
                "LLM 合并失败，已取第一本简介: "@ + brief(e@),
            ),
        },
{
    match outcome {
        Ok(f) => DescriptionChoice { text: f.text, llm: f.llm, degraded: f.degraded },
        Err(e) => DescriptionChoice {
            text: descs[0].as_str().to_owned(),
            llm: None,
            degraded: Some("LLM 合并失败，已取第一本简介: ".to_owned().concat(&brief_error(&e))),
        },
    }
}

/// The addresses that are looked at are those that were given and are pages of the review
/// site, without the white space around them, and all that entries lead to; nothing else, and
/// those that were given stand first.
pub proof fn listed_addresses(links: Seq<Seq<char>>, urls: Seq<Seq<char>>, x: Seq<char>)
    ensures
        douban_list(links, urls).contains(x) <==> {
            ||| exists|i: int|
                0 <= i < links.len() && trim(#[trigger] links[i]) == x && x.len() > 0 && has_part(
                    x,
                    "book.douban.com/subject/"@,
                )
            ||| exists|i: int| 0 <= i < urls.len() && #[trigger] urls[i] == x && !is_blank(x)
        },
        with_links(Seq::empty(), links).is_prefix_of(douban_list(links, urls)),
{
    let first = with_links(Seq::empty(), links);
    links_are_listed(links, x);
    urls_are_listed(first, urls, x);
}

proof fn new_is_held(acc: Seq<Seq<char>>, y: Seq<char>, x: Seq<char>)
    ensures
        with_new(acc, y).contains(x) <==> acc.contains(x) || x == y,
        acc.is_prefix_of(with_new(acc, y)),
{
    let now = with_new(acc, y);
    if acc.contains(x) {
        let i = choose|i: int| 0 <= i < acc.len() && acc[i] == x;
        assert(now[i] == x);
    }
    if !acc.contains(y) {
        assert(now[now.len() - 1] == y);
        if now.contains(x) && x != y {
            let i = choose|i: int| 0 <= i < now.len() && now[i] == x;
            assert(acc[i] == x);
        }
    }
}

proof fn links_are_listed(links: Seq<Seq<char>>, x: Seq<char>)
    ensures
        with_links(Seq::empty(), links).contains(x) <==> exists|i: int|
            0 <= i < links.len() && trim(#[trigger] links[i]) == x && x.len() > 0 && has_part(
                x,
                "book.douban.com/subject/"@,
            ),
    decreases links.len(),
{
    if links.len() > 0 {
        let init = links.drop_last();
        links_are_listed(init, x);
        let before = with_links(Seq::empty(), init);
        let u = trim(links.last());
        new_is_held(before, u, x);
        trim_is_tight(links.last());
        if exists|i: int|
            0 <= i < init.len() && trim(#[trigger] init[i]) == x && x.len() > 0 && has_part(
                x,
                "book.douban.com/subject/"@,
            ) {
            let i = choose|i: int|
                0 <= i < init.len() && trim(#[trigger] init[i]) == x && x.len() > 0 && has_part(
                    x,
                    "book.douban.com/subject/"@,
                );
            assert(trim(links[i]) == x);
        }
        if exists|i: int|
            0 <= i < links.len() && trim(#[trigger] links[i]) == x && x.len() > 0 && has_part(
                x,
                "book.douban.com/subject/"@,
            ) {
            let i = choose|i: int|
                0 <= i < links.len() && trim(#[trigger] links[i]) == x && x.len() > 0 && has_part(
                    x,
                    "book.douban.com/subject/"@,
                );
            if i < init.len() {
                assert(trim(init[i]) == x);
            }
        }
        if x == u && u.len() > 0 {
            assert(trim(links[links.len() - 1]) == x);
        }
    }
}

proof fn urls_are_listed(acc: Seq<Seq<char>>, urls: Seq<Seq<char>>, x: Seq<char>)
    ensures
        with_urls(acc, urls).contains(x) <==> acc.contains(x) || exists|i: int|
            0 <= i < urls.len() && #[trigger] urls[i] == x && !is_blank(x),
        acc.is_prefix_of(with_urls(acc, urls)),
    decreases urls.len(),
{
    if urls.len() > 0 {
        let init = urls.drop_last();
        urls_are_listed(acc, init, x);
        let before = with_urls(acc, init);
        new_is_held(before, urls.last(), x);
        if exists|i: int| 0 <= i < init.len() && #[trigger] init[i] == x && !is_blank(x) {
            let i = choose|i: int| 0 <= i < init.len() && #[trigger] init[i] == x && !is_blank(x);
            assert(urls[i] == x);
        }
        if exists|i: int| 0 <= i < urls.len() && #[trigger] urls[i] == x && !is_blank(x) {
            let i = choose|i: int| 0 <= i < urls.len() && #[trigger] urls[i] == x && !is_blank(x);
            if i < init.len() {
                assert(init[i] == x);
            }
        }
        if x == urls.last() {
            assert(urls[urls.len() - 1] == x);
        }
    }
}

/// A book has no tag that was not given, that is not fixed and that none of several entries
/// has, but for the tag of the genre where it would have none; and what was given of the tags
/// is among them.
pub proof fn tags_come_from_somewhere(
    own: Seq<Seq<char>>,
    ms: Seq<SuggestionMatch>,
    fixed: Seq<Seq<char>>,
    t: Seq<char>,
)
    ensures
        tidy(own).contains(t) ==> import_tags(own, ms, fixed).contains(t),
        import_tags(own, ms, fixed).contains(t) ==> {
            ||| tidy(own).contains(t)
            ||| fixed.contains(t)
            ||| ms.len() > 1 && exists|k: int|
                0 <= k < ms.len() && tidy(strs((#[trigger] ms[k]).tags@)).contains(t)
            ||| t == "推理小说"@ && tidy(own).len() == 0 && fixed.len() == 0
        },
{
    let all = with_all_new(united_tags(own, ms), fixed);
    if ms.len() > 1 {
        entry_tags_are_united(own, ms, fixed, t);
        union_is_distinct(Seq::empty(), tidy(own));
        let first = with_all_new(Seq::empty(), tidy(own));
        entry_tags_are_held(first, ms, t);
        entry_tags_are_all(first, ms, t);
        union_is_distinct(united_tags(own, ms), fixed);
        if all.len() == 0 {
            if tidy(own).len() > 0 {
                entry_tags_are_united(own, ms, fixed, tidy(own)[0]);
                all_tags_grow(own, ms, fixed);
            }
            all_tags_grow(own, ms, fixed);
        }
    } else {
        all_tags_grow(own, ms, fixed);
        held_or_added(tidy(own), fixed, t);
    }
}

proof fn held_or_added(acc: Seq<Seq<char>>, xs: Seq<Seq<char>>, t: Seq<char>)
    ensures
        with_all_new(acc, xs).contains(t) <==> acc.contains(t) || xs.contains(t),
        with_all_new(acc, xs).len() >= acc.len(),
        xs.len() > 0 ==> with_all_new(acc, xs).len() > 0,
    decreases xs.len(),
{
    if xs.len() > 0 {
        let init = xs.drop_last();
        held_or_added(acc, init, t);
        new_is_held(with_all_new(acc, init), xs.last(), t);
        if init.contains(t) {
            let i = choose|i: int| 0 <= i < init.len() && init[i] == t;
            assert(xs[i] == t);
        }
        if xs.contains(t) {
            let i = choose|i: int| 0 <= i < xs.len() && xs[i] == t;
            if i < init.len() {
                assert(init[i] == t);
            }
        }
        if t == xs.last() {
            assert(xs[xs.len() - 1] == t);
        }
    }
}

proof fn entry_tags_are_all(acc: Seq<Seq<char>>, ms: Seq<SuggestionMatch>, t: Seq<char>)
    ensures
        with_entry_tags(acc, ms).contains(t) ==> acc.contains(t) || exists|k: int|
            0 <= k < ms.len() && tidy(strs((#[trigger] ms[k]).tags@)).contains(t),
        with_entry_tags(acc, ms).len() >= acc.len(),
    decreases ms.len(),
{
    if ms.len() > 0 {
        let init = ms.drop_last();
        entry_tags_are_all(acc, init, t);
        held_or_added(with_entry_tags(acc, init), tidy(strs(ms.last().tags@)), t);
        if exists|k: int| 0 <= k < init.len() && tidy(strs((#[trigger] init[k]).tags@)).contains(t) {
            let k = choose|k: int|
                0 <= k < init.len() && tidy(strs((#[trigger] init[k]).tags@)).contains(t);
            assert(tidy(strs(ms[k].tags@)).contains(t));
        }
        if tidy(strs(ms.last().tags@)).contains(t) {
            assert(tidy(strs(ms[ms.len() - 1].tags@)).contains(t));
        }
    }
}

proof fn all_tags_grow(own: Seq<Seq<char>>, ms: Seq<SuggestionMatch>, fixed: Seq<Seq<char>>)
    ensures
        tidy(own).len() > 0 || fixed.len() > 0 ==> with_all_new(united_tags(own, ms), fixed).len()
            > 0,
{
    let t = Seq::<char>::empty();
    held_or_added(united_tags(own, ms), fixed, t);
    held_or_added(Seq::empty(), tidy(own), t);
    entry_tags_are_all(with_all_new(Seq::empty(), tidy(own)), ms, t);
}

/// The entries that are looked at are those that have an id, in order. `m` says which.
pub proof fn entries_with_an_id_are_looked_at(ms: Seq<SuggestionMatch>) -> (m: Seq<int>)
    ensures
        m.len() == with_ids(ms).len(),
        forall|i: int, j: int| 0 <= i < j < m.len() ==> #[trigger] m[i] < #[trigger] m[j],
        forall|i: int|
            0 <= i < m.len() ==> 0 <= #[trigger] m[i] < ms.len() && with_ids(ms)[i] == ms[m[i]]
                && !is_blank(ms[m[i]].id@),
        forall|p: int| 0 <= p < ms.len() && !is_blank((#[trigger] ms[p]).id@) ==> m.contains(p),
{
    let f = |s: SuggestionMatch| !is_blank(s.id@);
    let m = filter_places(ms, f);
    assert forall|p: int| 0 <= p < ms.len() && !is_blank((#[trigger] ms[p]).id@) implies m.contains(
        p,
    ) by {
        assert(f(ms[p]));
    }
    m
}

/// The descriptions of a book are those of its entries, and those of pages only where no entry
/// has one. A model is asked where there are several and they are to be merged; the cover is
/// looked for where an address or a page is known.
pub proof fn what_is_still_to_be_done(d: ImportDraft)
    ensures
        d.clasp_summaries@.len() > 0 ==> d.descriptions() == strs(d.clasp_summaries@),
        d.clasp_summaries@.len() == 0 ==> d.descriptions() == strs(d.douban_summaries@),
        d.asks_model() <==> d.merge && (d.clasp_summaries@.len() > 1 || d.clasp_summaries@.len() == 0
            && d.douban_summaries@.len() > 1),
        d.seeks_cover() <==> d.cover_urls@.len() > 0 || d.douban_urls@.len() > 0,
{
    assert(strs(d.clasp_summaries@).len() == d.clasp_summaries@.len());
    assert(strs(d.douban_summaries@).len() == d.douban_summaries@.len());
}

} // verus!
