//! Choosing a book among search results, and importing it with questions to the user.
use vstd::prelude::*;
use vstd::string::*;

use crate::imports::{links_in, list_douban, with_links, with_urls};
use crate::ingestion::{
    filled, inherit_series, inherited, pair_views, IngestOptions, PendingSource, PreparedImport,
};
use crate::spider::{
    add_all_new, add_new, copy_suggestion, with_all_new, with_new, ClaspBookMeta,
    ClaspBookSuggestion, SuggestionView,
};
use crate::text::{
    blank, clone_opt, clone_strings, is_blank, opt_str, same, split_on, strs, strs_push, trim,
    trimmed,
};
use crate::utils::{
    count_han, filename_stem, han_count, path_stem, simplified, split_tags, tags_in, to_simplified,
};

verus! {

/// What is looked up for a book: its title where it has one, and the name of its file.
pub fn lookup_words(title: &Option<String>, path: &str) -> (r: Vec<String>)
    ensures
        strs(r@) == (match opt_str(*title) {
            Some(t) => with_new(seq![t], path_stem(path@)),
            None => seq![path_stem(path@)],
        }),
{
    let stem = filename_stem(path);
    let mut v: Vec<String> = Vec::new();
    match title {
        Some(t) => {
            v.push(t.as_str().to_owned());
            assert(strs(v@) =~= seq![t@]);
        },
        None => {
            assert(strs(v@) =~= Seq::<Seq<char>>::empty());
        },
    }
    add_new(&mut v, &stem);
    assert(title is None ==> strs(v@) =~= seq![path_stem(path@)]);
    v
}

// ---- the choice ----

/// What the user is asked next.
#[derive(Debug, Clone, Copy, PartialEq, Eq, Structural)]
pub enum Question {
    /// A title to look up; none is known.
    AskTitle,
    /// Which of the results the book holds.
    PickMany,
    /// Nothing: the only result is taken.
    TakeOnly,
    /// Whether the only result is the book.
    ConfirmOnly,
    /// Which result is the book.
    Menu,
}

/// What is done after an answer.
#[derive(Debug)]
pub enum Verdict {
    /// These results are the book; `true` where nothing was asked.
    Chosen(Vec<ClaspBookSuggestion>, bool),
    /// Look this up.
    Search(String),
    /// The title and the author are typed in.
    TypeIn,
    /// Ask for a title.
    AskTitle,
    /// Ask which results the book holds.
    PickMany,
    /// Ask again.
    Again,
    /// The user gives up.
    Abort,
}

/// The choice of a book as it goes on.
#[derive(Debug)]
pub struct Selection {
    pub items: Vec<ClaspBookSuggestion>,
    /// The book holds several works.
    pub merged: bool,
    /// The only result is taken without a question.
    pub batch: bool,
}

/// The views of suggestions.
pub open spec fn suggestion_views(v: Seq<ClaspBookSuggestion>) -> Seq<
    SuggestionView,
> {
    v.map_values(|s: ClaspBookSuggestion| s@)
}

impl Selection {
    pub fn new(items: Vec<ClaspBookSuggestion>, options: IngestOptions) -> (r: Selection)
        ensures
            r.items == items,
            r.merged == options.merged,
            r.batch == options.batch,
    {
        Selection { items, merged: options.merged, batch: options.batch }
    }

    /// What the user is asked next.
    pub open spec fn question(self) -> Question {
        if self.items@.len() == 0 {
            Question::AskTitle
        } else if self.merged {
            Question::PickMany
        } else if self.items@.len() == 1 {
            if self.batch {
                Question::TakeOnly
            } else {
                Question::ConfirmOnly
            }
        } else {
            Question::Menu
        }
    }

    /// What the user is asked next.
    pub fn ask(&self) -> (r: Question)
        ensures
            r == self.question(),
    {
        if self.items.len() == 0 {
            Question::AskTitle
        } else if self.merged {
            Question::PickMany
        } else if self.items.len() == 1 {
            if self.batch {
                Question::TakeOnly
            } else {
                Question::ConfirmOnly
            }
        } else {
            Question::Menu
        }
    }

    /// The only result is taken.
    pub fn take_only(&self) -> (r: Verdict)
        requires
            self.items@.len() == 1,
        ensures
            r matches Verdict::Chosen(v, auto) && auto && suggestion_views(v@)
                == suggestion_views(self.items@),
    {
        let mut v: Vec<ClaspBookSuggestion> = Vec::new();
        v.push(copy_suggestion(&self.items[0]));
        assert(suggestion_views(v@) =~= suggestion_views(self.items@));
        Verdict::Chosen(v, true)
    }

    /// After the answer to the question for a title: an empty one means that the book is
    /// typed in.
    pub fn titled(&self, answer: &str) -> (r: Verdict)
        ensures
            if is_blank(answer@) {
                r is TypeIn
            } else {
                r matches Verdict::Search(t) && t@ == trim(answer@)
            },
    {
        let t = trimmed(answer);
        if t.as_str().is_empty() {
            Verdict::TypeIn
        } else {
            Verdict::Search(t)
        }
    }

    /// The results of a new search stand for the old ones.
    pub fn searched(&mut self, items: Vec<ClaspBookSuggestion>)
        ensures
            *final(self) == (Selection { items, ..*old(self) }),
    {
        self.items = items;
    }

    /// After the answer to the question whether the only result is the book.
    pub fn confirmed(&self, yes: bool) -> (r: Verdict)
        requires
            self.items@.len() == 1,
        ensures
            if yes {
                r matches Verdict::Chosen(v, auto) && !auto && suggestion_views(v@)
                    == suggestion_views(self.items@)
            } else {
                r is AskTitle
            },
    {
        if yes {
            let mut v: Vec<ClaspBookSuggestion> = Vec::new();
            v.push(copy_suggestion(&self.items[0]));
            assert(suggestion_views(v@) =~= suggestion_views(self.items@));
            Verdict::Chosen(v, false)
        } else {
            Verdict::AskTitle
        }
    }

    /// After a choice from the menu: a result, a new title, several results, or none.
    pub fn picked(&self, choice: usize) -> (r: Verdict)
        ensures
            if choice < self.items@.len() {
                r matches Verdict::Chosen(v, auto) && !auto && suggestion_views(v@) == seq![
                    self.items@[choice as int]@,
                ]
            } else if choice == self.items@.len() {
                r is AskTitle
            } else if choice == self.items@.len() + 1 {
                r is PickMany
            } else {
                r is Abort
            },
    {
        let n: usize = self.items.len();
        if choice < n {
            let mut v: Vec<ClaspBookSuggestion> = Vec::new();
            v.push(copy_suggestion(&self.items[choice]));
            assert(suggestion_views(v@) =~= seq![self.items@[choice as int]@]);
            Verdict::Chosen(v, false)
        } else if choice - n == 0 {
            Verdict::AskTitle
        } else if choice - n == 1 {
            Verdict::PickMany
        } else {
            Verdict::Abort
        }
    }

    /// After several results were marked: those, or the plain questions where none was.
    pub fn marked(&mut self, marks: &Vec<usize>) -> (r: Verdict)
        requires
            forall|i: int| 0 <= i < marks@.len() ==> (#[trigger] marks@[i]) < old(self).items@.len(),
        ensures
            final(self).items == old(self).items,
            final(self).batch == old(self).batch,
            if marks@.len() == 0 {
                r is Again && !final(self).merged
            } else {
                &&& final(self).merged == old(self).merged
                &&& r matches Verdict::Chosen(v, auto) && !auto && suggestion_views(v@)
                    == marks@.map_values(|k: usize| old(self).items@[k as int]@)
            },
    {
        if marks.len() == 0 {
            self.merged = false;
            return Verdict::Again;
        }
        let ghost items = self.items@;
        let ghost want = marks@.map_values(|k: usize| items[k as int]@);
        let mut v: Vec<ClaspBookSuggestion> = Vec::new();
        let mut i: usize = 0;
        assert(suggestion_views(v@) =~= want.take(0));
        while i < marks.len()
            invariant
                i <= marks@.len(),
                items == self.items@,
                want == marks@.map_values(|k: usize| items[k as int]@),
                forall|i: int|
                    0 <= i < marks@.len() ==> (#[trigger] marks@[i]) < self.items@.len(),
                suggestion_views(v@) == want.take(i as int),
            decreases marks@.len() - i,
        {
            let s = copy_suggestion(&self.items[marks[i]]);
            let ghost was = v@;
            v.push(s);
            i += 1;
            proof {
                assert(suggestion_views(v@) =~= suggestion_views(was).push(s@));
                assert(want.take(i as int) =~= want.take(i - 1).push(want[i - 1]));
            }
        }
        assert(want.take(marks@.len() as int) =~= want);
        Verdict::Chosen(v, false)
    }
}

/// A book whose title and author were typed in.
pub fn typed_in(title: String, author: String) -> (r: ClaspBookSuggestion)
    ensures
        r.title == title,
        r.author_name == author,
        r.id@.len() == 0,
        r.tags@.len() == 0,
        r.cover_url is None,
        r.summary is None,
        r.douban_url is None,
{
    ClaspBookSuggestion {
        title,
        author_name: author,
        id: String::new(),
        tags: Vec::new(),
        cover_url: None,
        summary: None,
        douban_url: None,
    }
}

// ---- the import ----

/// The import of a chosen book as it goes on.
#[derive(Debug)]
pub struct ChosenBook {
    pub meta: ClaspBookMeta,
    pub clasp_summaries: Vec<String>,
    pub douban_summaries: Vec<String>,
    pub cover_urls: Vec<String>,
    pub series_pairs: Vec<(String, Option<i64>)>,
    pub sources_clasp: Vec<PendingSource>,
    pub sources_douban: Vec<PendingSource>,
}

/// `v` with the text behind it, where there is one.
pub open spec fn with_opt(v: Seq<Seq<char>>, o: Option<Seq<char>>) -> Seq<Seq<char>> {
    match o {
        Some(t) => v.push(t),
        None => v,
    }
}

fn push_opt(v: &mut Vec<String>, o: &Option<String>)
    ensures
        strs(final(v)@) == with_opt(strs(old(v)@), opt_str(*o)),
{
    match clone_opt(o) {
        Some(t) => {
            proof {
                strs_push(v@, t);
            }
            v.push(t);
        },
        None => {},
    }
}

/// A title that the user was asked about: what was typed, where it is not blank.
pub open spec fn asked_title(title: Seq<char>, answer: Seq<char>) -> Seq<char> {
    if han_count(title) > 0 {
        simplified(title)
    } else if is_blank(answer) {
        title
    } else {
        answer
    }
}

/// Whether the user is asked about a title: it has no Chinese characters.
pub fn title_is_foreign(title: &str) -> (r: bool)
    ensures
        r == (han_count(title@) == 0),
{
    count_han(title) == 0
}

/// A title in simplified characters; for one without Chinese characters, what the user
/// typed.
pub fn normalize_title(title: &str, answer: &str) -> (r: String)
    ensures
        r@ == asked_title(title@, answer@),
{
    if count_han(title) > 0 {
        to_simplified(title)
    } else if blank(answer) {
        title.to_owned()
    } else {
        answer.to_owned()
    }
}

fn copy_pair(p: &(String, Option<i64>)) -> (r: (String, Option<i64>))
    ensures
        r.0@ == p.0@,
        r.1 == p.1,
{
    (p.0.as_str().to_owned(), p.1)
}

impl ChosenBook {
    pub fn start(meta: ClaspBookMeta) -> (r: ChosenBook)
        ensures
            r.meta == meta,
            r.clasp_summaries@.len() == 0,
            r.douban_summaries@.len() == 0,
            r.cover_urls@.len() == 0,
            r.series_pairs@.len() == 0,
            r.sources_clasp@.len() == 0,
            r.sources_douban@.len() == 0,
    {
        ChosenBook {
            meta,
            clasp_summaries: Vec::new(),
            douban_summaries: Vec::new(),
            cover_urls: Vec::new(),
            series_pairs: Vec::new(),
            sources_clasp: Vec::new(),
            sources_douban: Vec::new(),
        }
    }

    /// Adds an entry as it was found.
    pub fn clasp_crawled(&mut self, found: PendingSource)
        ensures
            final(self).meta == (ClaspBookMeta {
                douban_urls: final(self).meta.douban_urls,
                ..old(self).meta
            }),
            final(self).douban_summaries == old(self).douban_summaries,
            final(self).sources_douban == old(self).sources_douban,
            strs(final(self).clasp_summaries@) == with_opt(
                strs(old(self).clasp_summaries@),
                opt_str(found.summary),
            ),
            strs(final(self).cover_urls@) == (match filled(opt_str(found.cover_url)) {
                Some(c) => with_new(strs(old(self).cover_urls@), c),
                None => strs(old(self).cover_urls@),
            }),
            pair_views(final(self).series_pairs@) == (match found.series {
                Some(s) => pair_views(old(self).series_pairs@).push((s.0@, s.1)),
                None => pair_views(old(self).series_pairs@),
            }),
            strs(final(self).meta.douban_urls@) == (match found.douban_url {
                Some(u) => with_new(strs(old(self).meta.douban_urls@), u@),
                None => strs(old(self).meta.douban_urls@),
            }),
            final(self).sources_clasp@ == old(self).sources_clasp@.push(found),
    {
        push_opt(&mut self.clasp_summaries, &found.summary);
        match &found.cover_url {
            Some(c) => {
                if !blank(c) {
                    add_new(&mut self.cover_urls, c);
                }
            },
            None => {},
        }
        match &found.series {
            Some(s) => {
                let p = copy_pair(s);
                let ghost was = self.series_pairs@;
                self.series_pairs.push(p);
                assert(pair_views(self.series_pairs@) =~= pair_views(was).push((p.0@, p.1)));
            },
            None => {},
        }
        match &found.douban_url {
            Some(u) => {
                add_new(&mut self.meta.douban_urls, u);
            },
            None => {},
        }
        self.sources_clasp.push(found);
    }

    /// Sums the entries up: the series that they agree on, the title, the fixed tags, and the
    /// addresses to look at, those of `line` first.
    pub fn settle(&mut self, answer: &str, fixed_tags: &Vec<String>, line: &str)
        ensures
            final(self).clasp_summaries == old(self).clasp_summaries,
            final(self).douban_summaries == old(self).douban_summaries,
            final(self).cover_urls == old(self).cover_urls,
            final(self).sources_clasp == old(self).sources_clasp,
            final(self).sources_douban == old(self).sources_douban,
            final(self).series_pairs == old(self).series_pairs,
            final(self).meta.author == old(self).meta.author,
            final(self).meta.clasp_ids == old(self).meta.clasp_ids,
            match inherited(pair_views(old(self).series_pairs@)) {
                Some(v) => opt_str(final(self).meta.series_name) == Some(v.0)
                    && final(self).meta.series_order == v.1,
                None => final(self).meta.series_name == old(self).meta.series_name
                    && final(self).meta.series_order == old(self).meta.series_order,
            },
            final(self).meta.title@ == asked_title(old(self).meta.title@, answer@),
            strs(final(self).meta.tags@) == with_all_new(
                strs(old(self).meta.tags@),
                strs(fixed_tags@),
            ),
            strs(final(self).meta.douban_urls@) == with_all_new(
                with_links(Seq::empty(), split_on(line@, seq![' ', ',', '，', '\t'])),
                strs(old(self).meta.douban_urls@),
            ),
    {
        match inherit_series(&self.series_pairs) {
            Some((name, order)) => {
                self.meta.series_name = Some(name);
                self.meta.series_order = order;
            },
            None => {},
        }
        self.meta.title = normalize_title(&self.meta.title, answer);
        add_all_new(&mut self.meta.tags, fixed_tags);
        let none: Vec<String> = Vec::new();
        assert(strs(none@) =~= Seq::<Seq<char>>::empty());
        let mut list = list_douban(&links_in(line), &none);
        assert(with_urls(strs(list@), strs(none@)) == strs(list@));
        add_all_new(&mut list, &self.meta.douban_urls);
        self.meta.douban_urls = list;
    }

    /// Adds a page as it was found.
    pub fn douban_crawled(&mut self, found: PendingSource)
        ensures
            *final(self) == (ChosenBook {
                douban_summaries: final(self).douban_summaries,
                sources_douban: final(self).sources_douban,
                ..*old(self)
            }),
            strs(final(self).douban_summaries@) == with_opt(
                strs(old(self).douban_summaries@),
                opt_str(found.summary),
            ),
            final(self).sources_douban@ == old(self).sources_douban@.push(found),
    {
        push_opt(&mut self.douban_summaries, &found.summary);
        self.sources_douban.push(found);
    }

    /// The descriptions that count: those of the entries, and only where there are none, those
    /// of Douban.
    pub open spec fn counted(self) -> Seq<Seq<char>> {
        if self.clasp_summaries@.len() == 0 {
            strs(self.douban_summaries@)
        } else {
            strs(self.clasp_summaries@)
        }
    }

    /// How the description is settled: where none counts it is empty, and the only one is taken
    /// as it is. Where there are several, the user is asked whether they are to be made one if a
    /// model is set, and the first is taken if none is.
    pub fn describe(&self, configured: bool) -> (r: Describing)
        ensures
            match r {
                Describing::Settled(t) => {
                    &&& self.counted().len() < 2
                    &&& t@ == (if self.counted().len() == 0 {
                        Seq::empty()
                    } else {
                        self.counted()[0]
                    })
                },
                Describing::Ask(v) => self.counted().len() >= 2 && configured && strs(v@)
                    == self.counted(),
                Describing::First(v) => self.counted().len() >= 2 && !configured && strs(v@)
                    == self.counted(),
            },
    {
        let v = if self.clasp_summaries.len() == 0 {
            clone_strings(&self.douban_summaries)
        } else {
            clone_strings(&self.clasp_summaries)
        };
        assert(v@.len() == self.counted().len());
        if v.len() == 0 {
            Describing::Settled(String::new())
        } else if v.len() == 1 {
            assert(strs(v@)[0] == v@[0]@);
            Describing::Settled(v[0].clone())
        } else if configured {
            Describing::Ask(v)
        } else {
            Describing::First(v)
        }
    }

    /// Whether a cover is looked for outside the book: where an entry names a picture, or a page
    /// of Douban is known. Else, and where none is found there, the book's own is kept.
    pub fn looks_for_cover(&self) -> (r: bool)
        ensures
            r <==> self.cover_urls@.len() > 0 || self.meta.douban_urls@.len() > 0,
    {
        self.cover_urls.len() > 0 || self.meta.douban_urls.len() > 0
    }

    /// The fields that are recorded without a question: those that were found, where a whole
    /// directory is imported and the book was the only one to choose.
    pub fn unasked_fields(&self, auto: bool, batch: bool, description: &str) -> (r: Option<
        BookFields,
    >)
        ensures
            r is Some <==> auto && batch,
            r matches Some(f) ==> {
                &&& f.title@ == self.meta.title@
                &&& f.author@ == self.meta.author@
                &&& strs(f.tags@) == strs(self.meta.tags@)
                &&& f.description@ == description@
            },
    {
        if auto && batch {
            Some(
                BookFields {
                    title: self.meta.title.clone(),
                    author: self.meta.author.clone(),
                    tags: clone_strings(&self.meta.tags),
                    description: description.to_owned(),
                },
            )
        } else {
            None
        }
    }

    /// The book that is ready to be recorded, with its fields as the user left them.
    pub fn finish(
        self,
        file_path: String,
        original_path: String,
        fields: BookFields,
        cover_path: Option<String>,
        library_file: String,
    ) -> (r: PreparedImport)
        ensures
            r.file_path == file_path,
            r.original_path == original_path,
            r.title == fields.title,
            r.author == fields.author,
            r.tags == fields.tags,
            r.description == fields.description,
            r.series_name == self.meta.series_name,
            r.series_order == self.meta.series_order,
            r.clasp_ids == self.meta.clasp_ids,
            r.douban_urls == self.meta.douban_urls,
            r.library_file == library_file,
            r.cover_path == cover_path,
            r.cover_override is None,
            r.sources_clasp == self.sources_clasp,
            r.sources_douban == self.sources_douban,
            r.llm_usage@.len() == 0,
            r.fusion_model is None,
            r.fusion_error is None,
    {
        PreparedImport {
            file_path,
            original_path,
            title: fields.title,
            author: fields.author,
            tags: fields.tags,
            description: fields.description,
            series_name: self.meta.series_name,
            series_order: self.meta.series_order,
            clasp_ids: self.meta.clasp_ids,
            douban_urls: self.meta.douban_urls,
            library_file,
            cover_path,
            cover_override: None,
            sources_clasp: self.sources_clasp,
            sources_douban: self.sources_douban,
            llm_usage: Vec::new(),
            fusion_model: None,
            fusion_error: None,
        }
    }
}

/// How the description of a book is settled.
#[derive(Debug)]
pub enum Describing {
    /// It is this one.
    Settled(String),
    /// The user is asked whether a model makes these one.
    Ask(Vec<String>),
    /// There is no model to make these one: the first is taken.
    First(Vec<String>),
}

/// The fields of a book that the user edits.
#[derive(Debug)]
pub struct BookFields {
    pub title: String,
    pub author: String,
    pub tags: Vec<String>,
    pub description: String,
}

/// The fields of a book as the user typed them: an empty line of tags means none; an empty
/// description keeps the one there is, and `-` takes it away.
pub fn edited_fields(
    title: String,
    author: String,
    tags_line: &str,
    description: &str,
    typed: &str,
) -> (r: BookFields)
    ensures
        r.title == title,
        r.author == author,
        strs(r.tags@) == tags_in(tags_line@),
        r.description@ == (if trim(typed@) == "-"@ {
            Seq::empty()
        } else if is_blank(typed@) {
            description@
        } else {
            typed@
        }),
{
    let t = trimmed(typed);
    let description = if same(&t, "-") {
        String::new()
    } else if t.as_str().is_empty() {
        description.to_owned()
    } else {
        typed.to_owned()
    };
    BookFields { title, author, tags: split_tags(tags_line), description }
}

/// A title in Chinese characters counts in simplified ones, whatever is answered; another one is
/// replaced by the answer, where that is not blank.
pub proof fn what_is_asked_for(title: Seq<char>, answer: Seq<char>)
    ensures
        han_count(title) > 0 ==> asked_title(title, answer) == simplified(title),
        han_count(title) == 0 && !is_blank(answer) ==> asked_title(title, answer) == answer,
        han_count(title) == 0 && is_blank(answer) ==> asked_title(title, answer) == title,
{
}

/// What the user is asked: for a title where nothing is found, which results the book holds where
/// it holds several, whether the only result is the book, and else which it is. In a batch the
/// only result is taken without a question.
pub proof fn what_the_user_is_asked(s: Selection)
    ensures
        s.items@.len() == 0 <==> s.question() == Question::AskTitle,
        s.items@.len() > 0 && s.merged <==> s.question() == Question::PickMany,
        s.items@.len() == 1 && !s.merged && s.batch <==> s.question() == Question::TakeOnly,
        s.items@.len() == 1 && !s.merged && !s.batch <==> s.question() == Question::ConfirmOnly,
        s.items@.len() > 1 && !s.merged <==> s.question() == Question::Menu,
{
}

/// The descriptions of entries count, and those of pages only where there are none.
pub proof fn which_descriptions_count(s: ChosenBook)
    ensures
        s.clasp_summaries@.len() > 0 ==> s.counted() == strs(s.clasp_summaries@),
        s.clasp_summaries@.len() == 0 ==> s.counted() == strs(s.douban_summaries@),
{
}

} // verus!
