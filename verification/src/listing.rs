//! What the command line shows: the list of books, and how an import went.
use vstd::prelude::*;
use vstd::string::*;

use crate::queries::LocalBook;
use crate::seqs::{filter_none, filter_places, filter_step};
use crate::spider::ClaspBookMeta;
use crate::text::{
    chars_of, contains, dec, dec_i64, dec_int, dec_u64, has_part, join, lowercase, opt_str,
    string_of_range, strs, strs_push, to_lower,
};
use crate::utils::join_tags;

verus! {

// ---- the list of books ----

/// Whether a book is searched for, by its title or its author, whatever their case.
pub open spec fn is_hit(b: LocalBook, search: Option<Seq<char>>) -> bool {
    match search {
        Some(k) => has_part(lowercase(b.title@), lowercase(k)) || has_part(
            lowercase(b.author@),
            lowercase(k),
        ),
        None => true,
    }
}

/// The books that are listed.
pub open spec fn listed_books(books: Seq<LocalBook>, search: Option<Seq<char>>, limit: nat) -> Seq<
    LocalBook,
> {
    let hits = books.filter(|b: LocalBook| is_hit(b, search));
    if hits.len() <= limit {
        hits
    } else {
        hits.take(limit as int)
    }
}

/// The places of the books that are listed.
pub fn books_to_list(books: &Vec<LocalBook>, search: &Option<String>, limit: Option<usize>) -> (r: Vec<
    usize,
>)
    ensures
        forall|k: int| 0 <= k < r@.len() ==> (#[trigger] r@[k]) < books@.len(),
        r@.map_values(|k: usize| books@[k as int]) == listed_books(
            books@,
            opt_str(*search),
            match limit {
                Some(n) => n as nat,
                None => usize::MAX as nat,
            },
        ),
{
    let max: usize = match limit {
        Some(n) => n,
        None => usize::MAX,
    };
    let ghost wanted = opt_str(*search);
    let ghost f = |b: LocalBook| is_hit(b, wanted);
    let ghost at = |k: usize| books@[k as int];
    let mut out: Vec<usize> = Vec::new();
    let mut i: usize = 0;
    proof {
        filter_none(books@, f);
        assert(out@.map_values(at) =~= listed_books(books@.take(0), wanted, max as nat));
    }
    while i < books.len()
        invariant
            i <= books@.len(),
            wanted == opt_str(*search),
            f == (|b: LocalBook| is_hit(b, wanted)),
            at == (|k: usize| books@[k as int]),
            forall|k: int| 0 <= k < out@.len() ==> (#[trigger] out@[k]) < books@.len(),
            out@.map_values(at) == listed_books(books@.take(i as int), wanted, max as nat),
        decreases books@.len() - i,
    {
        proof {
            filter_step(books@, i as int, f);
        }
        let ghost hits = books@.take(i as int).filter(f);
        let ghost was = out@;
        assert(was.map_values(at).len() == was.len());
        let hit = match search {
            Some(k) => {
                let k = to_lower(k);
                contains(&to_lower(&books[i].title), &k) || contains(&to_lower(&books[i].author), &k)
            },
            None => true,
        };
        if hit && out.len() < max {
            out.push(i);
            assert(out@.map_values(at) =~= was.map_values(at).push(books@[i as int]));
        } else {
            proof {
                if hit {
                    assert(hits.push(books@[i as int]).take(max as int) =~= hits.take(max as int));
                    assert(hits.len() == max ==> hits.take(max as int) =~= hits);
                }
            }
        }
        i += 1;
    }
    assert(books@.take(books@.len() as int) =~= books@);
    out
}

/// The series of a book with its volume.
pub open spec fn series_cell(name: Seq<char>, order: Option<i64>) -> Seq<char> {
    if name.len() == 0 {
        Seq::empty()
    } else {
        match order {
            Some(o) => name + " #"@ + dec_int(o as int),
            None => name,
        }
    }
}

/// The cells of a book in the list.
pub open spec fn cells(b: LocalBook) -> Seq<Seq<char>> {
    seq![
        dec_int(b.id as int),
        b.title@,
        b.author@,
        b.tags@,
        b.status@,
        series_cell(b.series_name@, b.series_order),
        b.library_file@,
    ]
}

/// The cells of a book in the list.
pub fn book_cells(b: &LocalBook) -> (r: Vec<String>)
    ensures
        strs(r@) == cells(*b),
{
    let series = if b.series_name.as_str().is_empty() {
        String::new()
    } else {
        match b.series_order {
            Some(o) => b.series_name.as_str().to_owned().concat(" #").concat(&dec_i64(o)),
            None => b.series_name.as_str().to_owned(),
        }
    };
    let mut out: Vec<String> = Vec::new();
    out.push(dec_i64(b.id));
    out.push(b.title.as_str().to_owned());
    out.push(b.author.as_str().to_owned());
    out.push(b.tags.as_str().to_owned());
    out.push(b.status.as_str().to_owned());
    out.push(series);
    out.push(b.library_file.as_str().to_owned());
    assert(strs(out@) =~= cells(*b));
    out
}

// ---- importing many books ----

/// What became of a book.
#[derive(Debug, Clone, Copy, PartialEq, Eq, Structural)]
pub enum ImportOutcome {
    Imported,
    /// The user gave up on it.
    Skipped,
    Failed,
}

/// How many books were imported, skipped and not imported.
#[derive(Debug)]
pub struct BatchCount {
    pub imported: u64,
    pub skipped: u64,
    pub failed: u64,
    /// How many are still to come.
    pub left: u64,
}

impl BatchCount {
    /// How many books there are.
    pub open spec fn total(&self) -> int {
        self.imported + self.skipped + self.failed + self.left
    }

    pub fn start(total: u64) -> (r: BatchCount)
        ensures
            r.total() == total,
            r.left == total,
    {
        BatchCount { imported: 0, skipped: 0, failed: 0, left: total }
    }

    /// Counts one book, and answers whether the user is to be asked to go on; behind the last
    /// there is none to count.
    pub fn count(&mut self, outcome: ImportOutcome) -> (ask: bool)
        requires
            old(self).total() <= u64::MAX,
        ensures
            final(self).total() == old(self).total(),
            old(self).left == 0 ==> *final(self) == *old(self),
            old(self).left > 0 ==> {
                &&& final(self).left == old(self).left - 1
                &&& final(self).imported == old(self).imported + (if outcome
                    == ImportOutcome::Imported {
                    1int
                } else {
                    0
                })
                &&& final(self).skipped == old(self).skipped + (if outcome
                    == ImportOutcome::Skipped {
                    1int
                } else {
                    0
                })
            },
            ask == (outcome != ImportOutcome::Imported),
    {
        if self.left > 0 {
            self.left = self.left - 1;
            match outcome {
                ImportOutcome::Imported => {
                    self.imported = self.imported + 1;
                },
                ImportOutcome::Skipped => {
                    self.skipped = self.skipped + 1;
                },
                ImportOutcome::Failed => {
                    self.failed = self.failed + 1;
                },
            }
        }
        match outcome {
            ImportOutcome::Imported => false,
            _ => true,
        }
    }

    /// The line that ends the import.
    pub fn summary(&self) -> (r: String)
        ensures
            r@ == "\n批量导入结束：成功 "@ + dec(self.imported as nat) + " 本，跳过 "@ + dec(
                self.skipped as nat,
            ) + " 本，失败 "@ + dec(self.failed as nat) + " 本"@,
    {
        "\n批量导入结束：成功 ".to_owned().concat(&dec_u64(self.imported)).concat(" 本，跳过 ").concat(
            &dec_u64(self.skipped),
        ).concat(" 本，失败 ").concat(&dec_u64(self.failed)).concat(" 本")
    }
}

// ---- an imported book ----

/// A line for each text.
pub open spec fn headed(head: Seq<char>, v: Seq<Seq<char>>) -> Seq<Seq<char>> {
    v.map_values(|s: Seq<char>| head + s)
}

/// The first 60 characters.
pub open spec fn preview(s: Seq<char>) -> Seq<char> {
    if s.len() <= 60 {
        s
    } else {
        s.take(60)
    }
}

/// The first 60 characters.
pub fn preview_of(s: &str) -> (r: String)
    ensures
        r@ == preview(s@),
{
    let v = chars_of(s);
    if v.len() <= 60 {
        s.to_owned()
    } else {
        assert(v@.take(60) =~= v@.subrange(0, 60));
        string_of_range(&v, 0, 60)
    }
}

/// The lines that show an imported book.
pub open spec fn summary_lines(
    m: ClaspBookMeta,
    book: int,
    description: Seq<char>,
    library_file: Option<Seq<char>>,
) -> Seq<Seq<char>> {
    let head = seq![
        "\n========== 入库完成 =========="@,
        "  书名: "@ + m.title@,
        "  作者: "@ + m.author@,
        "  标签: "@ + join(strs(m.tags@), ", "@),
    ];
    let series = match m.series_name {
        Some(n) => seq![
            "  系列: "@ + n@ + (match m.series_order {
                Some(o) => " #"@ + dec_int(o as int),
                None => ""@,
            }),
        ],
        None => Seq::empty(),
    };
    let text = if description.len() > 0 {
        seq!["  简介: "@ + preview(description) + "..."@]
    } else {
        Seq::empty()
    };
    let file = match library_file {
        Some(f) => seq!["  书库: "@ + f],
        None => Seq::empty(),
    };
    head + series + text + headed("  豆瓣: "@, strs(m.douban_urls@)) + headed(
        "  Clasp: "@,
        strs(m.clasp_ids@),
    ) + file + seq!["  数据库 ID: "@ + dec_int(book), "==============================\n"@]
}

fn push_line(out: &mut Vec<String>, line: String)
    ensures
        strs(final(out)@) == strs(old(out)@) + seq![line@],
{
    proof {
        strs_push(out@, line);
    }
    out.push(line);
    assert(strs(out@) =~= strs(old(out)@) + seq![line@]);
}

fn push_headed(out: &mut Vec<String>, head: &str, v: &Vec<String>)
    ensures
        strs(final(out)@) == strs(old(out)@) + headed(head@, strs(v@)),
{
    let ghost start = strs(out@);
    let ghost want = headed(head@, strs(v@));
    let mut i: usize = 0;
    assert(strs(out@) =~= start + want.take(0));
    while i < v.len()
        invariant
            i <= v@.len(),
            want == headed(head@, strs(v@)),
            strs(out@) == start + want.take(i as int),
        decreases v@.len() - i,
    {
        let line = head.to_owned().concat(&v[i]);
        assert(want[i as int] == line@);
        push_line(out, line);
        i += 1;
        assert(strs(out@) =~= start + want.take(i as int));
    }
    assert(want.take(v@.len() as int) =~= want);
}

/// The lines that show an imported book.
pub fn print_summary(
    m: &ClaspBookMeta,
    book_id: i64,
    description: &str,
    library_file: &Option<String>,
) -> (r: Vec<String>)
    ensures
        strs(r@) == summary_lines(*m, book_id as int, description@, opt_str(*library_file)),
{
    let mut out: Vec<String> = Vec::new();
    push_line(&mut out, "\n========== 入库完成 ==========".to_owned());
    push_line(&mut out, "  书名: ".to_owned().concat(&m.title));
    push_line(&mut out, "  作者: ".to_owned().concat(&m.author));
    push_line(&mut out, "  标签: ".to_owned().concat(&join_tags(&m.tags)));
    let ghost head = seq![
        "\n========== 入库完成 =========="@,
        "  书名: "@ + m.title@,
        "  作者: "@ + m.author@,
        "  标签: "@ + join(strs(m.tags@), ", "@),
    ];
    assert(strs(out@) =~= head);
    match &m.series_name {
        Some(n) => {
            let volume = match m.series_order {
                Some(o) => " #".to_owned().concat(&dec_i64(o)),
                None => "".to_owned(),
            };
            push_line(&mut out, "  系列: ".to_owned().concat(n).concat(&volume));
        },
        None => {
            assert(strs(out@) + Seq::<Seq<char>>::empty() =~= strs(out@));
        },
    }
    if !description.is_empty() {
        push_line(&mut out, "  简介: ".to_owned().concat(&preview_of(description)).concat("..."));
    } else {
        assert(strs(out@) + Seq::<Seq<char>>::empty() =~= strs(out@));
    }
    push_headed(&mut out, "  豆瓣: ", &m.douban_urls);
    push_headed(&mut out, "  Clasp: ", &m.clasp_ids);
    match library_file {
        Some(f) => {
            push_line(&mut out, "  书库: ".to_owned().concat(f));
        },
        None => {
            assert(strs(out@) + Seq::<Seq<char>>::empty() =~= strs(out@));
        },
    }
    let ghost before = strs(out@);
    push_line(&mut out, "  数据库 ID: ".to_owned().concat(&dec_i64(book_id)));
    push_line(&mut out, "==============================\n".to_owned());
    assert(strs(out@) =~= before + seq![
        "  数据库 ID: "@ + dec_int(book_id as int),
        "==============================\n"@,
    ]);
    out
}

/// The books that are listed are the first of those whose title or author holds what is searched
/// for, whatever the case, as many as are asked for, in order. `m` says which.
pub proof fn the_first_hits_are_listed(
    books: Seq<LocalBook>,
    search: Option<Seq<char>>,
    limit: nat,
) -> (m: Seq<int>)
    ensures
        listed_books(books, search, limit).len() <= limit,
        listed_books(books, search, limit).len() <= m.len(),
        listed_books(books, search, limit).len() < limit ==> listed_books(books, search, limit).len()
            == m.len(),
        forall|i: int, j: int| 0 <= i < j < m.len() ==> #[trigger] m[i] < #[trigger] m[j],
        forall|i: int| 0 <= i < m.len() ==> 0 <= #[trigger] m[i] < books.len(),
        forall|i: int|
            0 <= i < listed_books(books, search, limit).len() ==> listed_books(
                books,
                search,
                limit,
            )[i] == books[#[trigger] m[i]],
        forall|p: int|
            0 <= p < books.len() ==> (m.contains(p) <==> {
                ||| search is None
                ||| has_part(lowercase((#[trigger] books[p]).title@), lowercase(search->0))
                ||| has_part(lowercase(books[p].author@), lowercase(search->0))
            }),
{
    let f = |b: LocalBook| is_hit(b, search);
    let m = filter_places(books, f);
    assert forall|p: int| 0 <= p < books.len() implies (m.contains(p) <==> {
        ||| search is None
        ||| has_part(lowercase((#[trigger] books[p]).title@), lowercase(search->0))
        ||| has_part(lowercase(books[p].author@), lowercase(search->0))
    }) by {
        if m.contains(p) {
            let q = choose|q: int| 0 <= q < m.len() && m[q] == p;
            assert(f(books[m[q]]));
        }
        if f(books[p]) {
            assert(m.contains(p));
        }
    }
    m
}

/// The row of a book shows its identifier, its title, its author, its tags, its status, its
/// series with the volume behind it, and its file.
pub proof fn what_a_row_shows(b: LocalBook)
    ensures
        cells(b).len() == 7,
        cells(b)[0] == dec_int(b.id as int),
        cells(b)[1] == b.title@,
        cells(b)[2] == b.author@,
        cells(b)[3] == b.tags@,
        cells(b)[4] == b.status@,
        b.series_name@.len() == 0 ==> cells(b)[5].len() == 0,
        b.series_name@.len() > 0 && b.series_order is None ==> cells(b)[5] == b.series_name@,
        b.series_name@.len() > 0 && b.series_order is Some ==> cells(b)[5] == b.series_name@ + " #"@
            + dec_int(b.series_order->0 as int),
        cells(b)[6] == b.library_file@,
{
}

/// The summary of an import says the title, the author, the tags, the description, each page and
/// each entry, the file and the identifier, each where it is known.
pub proof fn what_a_summary_says(
    m: ClaspBookMeta,
    book: int,
    description: Seq<char>,
    library_file: Option<Seq<char>>,
)
    ensures
        ({
            let v = summary_lines(m, book, description, library_file);
            &&& v.contains("  书名: "@ + m.title@)
            &&& v.contains("  作者: "@ + m.author@)
            &&& v.contains("  标签: "@ + join(strs(m.tags@), ", "@))
            &&& m.series_name is Some && m.series_order is Some ==> v.contains(
                "  系列: "@ + m.series_name->0@ + (" #"@ + dec_int(m.series_order->0 as int)),
            )
            &&& 0 < description.len() <= 60 ==> v.contains("  简介: "@ + description + "..."@)
            &&& description.len() > 60 ==> v.contains(
                "  简介: "@ + description.take(60) + "..."@,
            )
            &&& forall|i: int|
                0 <= i < m.douban_urls@.len() ==> v.contains(
                    "  豆瓣: "@ + (#[trigger] m.douban_urls@[i])@,
                )
            &&& forall|i: int|
                0 <= i < m.clasp_ids@.len() ==> v.contains(
                    "  Clasp: "@ + (#[trigger] m.clasp_ids@[i])@,
                )
            &&& library_file matches Some(f) ==> v.contains("  书库: "@ + f)
            &&& v.contains("  数据库 ID: "@ + dec_int(book))
        }),
{
    let v = summary_lines(m, book, description, library_file);
    let head = seq![
        "\n========== 入库完成 =========="@,
        "  书名: "@ + m.title@,
        "  作者: "@ + m.author@,
        "  标签: "@ + join(strs(m.tags@), ", "@),
    ];
    let series = match m.series_name {
        Some(n) => seq![
            "  系列: "@ + n@ + (match m.series_order {
                Some(o) => " #"@ + dec_int(o as int),
                None => ""@,
            }),
        ],
        None => Seq::empty(),
    };
    let text = if description.len() > 0 {
        seq!["  简介: "@ + preview(description) + "..."@]
    } else {
        Seq::empty()
    };
    let pages = headed("  豆瓣: "@, strs(m.douban_urls@));
    let entries = headed("  Clasp: "@, strs(m.clasp_ids@));
    let file = match library_file {
        Some(f) => seq!["  书库: "@ + f],
        None => Seq::empty(),
    };
    let a = head.len() as int;
    let b = a + series.len();
    let c = b + text.len();
    let d = c + pages.len();
    let e = d + entries.len();
    let g = e + file.len();
    assert(v[1] == head[1]);
    assert(v[2] == head[2]);
    assert(v[3] == head[3]);
    assert(series.len() > 0 ==> v[a] == series[0]);
    assert(text.len() > 0 ==> v[b] == text[0]);
    assert(file.len() > 0 ==> v[e] == file[0]);
    assert(v[g] == "  数据库 ID: "@ + dec_int(book));
    assert forall|i: int| 0 <= i < m.douban_urls@.len() implies v.contains(
        "  豆瓣: "@ + (#[trigger] m.douban_urls@[i])@,
    ) by {
        assert(v[c + i] == pages[i]);
    }
    assert forall|i: int| 0 <= i < m.clasp_ids@.len() implies v.contains(
        "  Clasp: "@ + (#[trigger] m.clasp_ids@[i])@,
    ) by {
        assert(v[d + i] == entries[i]);
    }
}

} // verus!
