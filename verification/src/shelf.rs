//! The shelf page: every book of a library as a card.
use vstd::prelude::*;
use vstd::string::*;

use crate::json::{read_strings, strings_of_json};
use crate::queries::ShelfRow;
use crate::text::{
    blank, chars_of, dec, dec_i64, dec_int, dec_u64, has_part, has_string, is_blank, opt_str,
    parts_stand_in_the_whole, replace_all, replaced, same, strs,
};
use crate::utils::{file_name_of, path_name};

verus! {

/// The name of the shelf page in the library.
pub const SHELF_FILE: &'static str = "shelf.html";

/// What stands for a character in HTML.
pub open spec fn escaped_char(c: char) -> Seq<char> {
    if c == '&' {
        "&amp;"@
    } else if c == '<' {
        "&lt;"@
    } else if c == '>' {
        "&gt;"@
    } else if c == '"' {
        "&quot;"@
    } else {
        seq![c]
    }
}

/// What stands for a text in HTML.
pub open spec fn escaped(s: Seq<char>) -> Seq<char>
    decreases s.len(),
{
    if s.len() == 0 {
        Seq::empty()
    } else {
        escaped(s.drop_last()) + escaped_char(s.last())
    }
}

/// What stands for a text in HTML.
pub fn escape(s: &str) -> (r: String)
    ensures
        r@ == escaped(s@),
{
    let v = chars_of(s);
    let mut out = String::new();
    let mut i: usize = 0;
    assert(v@.take(0) =~= Seq::<char>::empty());
    while i < v.len()
        invariant
            i <= v@.len(),
            out@ == escaped(v@.take(i as int)),
        decreases v@.len() - i,
    {
        assert(v@.take(i + 1).drop_last() =~= v@.take(i as int));
        let c = v[i];
        let ghost before = out@;
        if c == '&' {
            out = out.concat("&amp;");
        } else if c == '<' {
            out = out.concat("&lt;");
        } else if c == '>' {
            out = out.concat("&gt;");
        } else if c == '"' {
            out = out.concat("&quot;");
        } else {
            out.push(c);
            assert(out@ =~= before + seq![c]);
        }
        i += 1;
    }
    assert(v@.take(v@.len() as int) =~= v@);
    out
}

proof fn escaped_char_is_text(c: char)
    ensures
        forall|i: int|
            0 <= i < escaped_char(c).len() ==> {
                &&& #[trigger] escaped_char(c)[i] != '<'
                &&& escaped_char(c)[i] != '>'
                &&& escaped_char(c)[i] != '"'
            },
{
    reveal_strlit("&amp;");
    reveal_strlit("&lt;");
    reveal_strlit("&gt;");
    reveal_strlit("&quot;");
}

/// An escaped text opens no tag, closes none, and ends no attribute.
pub proof fn escaped_is_text(s: Seq<char>)
    ensures
        forall|i: int|
            0 <= i < escaped(s).len() ==> {
                &&& #[trigger] escaped(s)[i] != '<'
                &&& escaped(s)[i] != '>'
                &&& escaped(s)[i] != '"'
            },
    decreases s.len(),
{
    if s.len() > 0 {
        escaped_is_text(s.drop_last());
        escaped_char_is_text(s.last());
        let a = escaped(s.drop_last());
        let b = escaped_char(s.last());
        assert forall|i: int| 0 <= i < escaped(s).len() implies {
            &&& #[trigger] escaped(s)[i] != '<'
            &&& escaped(s)[i] != '>'
            &&& escaped(s)[i] != '"'
        } by {
            if i < a.len() {
                assert(escaped(s)[i] == a[i]);
            } else {
                assert(escaped(s)[i] == b[i - a.len()]);
            }
        }
    }
}

/// Where the page finds a cover: by its name among those that are there.
pub open spec fn cover_link(cover: Option<Seq<char>>, present: Seq<Seq<char>>) -> Option<Seq<char>> {
    match cover {
        Some(p) => match path_name(p) {
            Some(n) => if present.contains(n) {
                Some("covers/"@ + n)
            } else {
                None
            },
            None => None,
        },
        None => None,
    }
}

/// Where the page finds a cover: by its name among those that are there.
pub fn cover_rel(cover: &Option<String>, present: &Vec<String>) -> (r: Option<String>)
    ensures
        opt_str(r) == cover_link(opt_str(*cover), strs(present@)),
{
    match cover {
        Some(p) => match file_name_of(p) {
            Some(n) => if has_string(present, &n) {
                Some("covers/".to_owned().concat(&n))
            } else {
                None
            },
            None => None,
        },
        None => None,
    }
}

/// The picture on a card.
pub open spec fn cover_part(link: Option<Seq<char>>, title: Seq<char>) -> Seq<char> {
    match link {
        Some(src) => "<img class=\"cover\" src=\""@ + src + "\" alt=\"cover\" loading=\"lazy\">"@,
        None => "<div class=\"cover placeholder\"><span>"@ + escaped(title) + "</span></div>"@,
    }
}

/// The mark of a status.
pub open spec fn badge(status: Seq<char>) -> Seq<char> {
    if status == "已读"@ {
        "<span class=\"badge read\">已读</span>"@
    } else if status == "在读"@ {
        "<span class=\"badge reading\">在读</span>"@
    } else {
        "<span class=\"badge wish\">想读</span>"@
    }
}

/// What the reader wrote of a book that they have read.
pub open spec fn tip(status: Seq<char>, review: Seq<char>) -> Seq<char> {
    if status == "已读"@ && !is_blank(review) {
        "<div class=\"tip\"><b>我的短评</b>"@ + escaped(review) + "</div>"@
    } else {
        Seq::empty()
    }
}

/// The series of a book.
pub open spec fn series_part(name: Seq<char>, order: Option<i64>) -> Seq<char> {
    if name.len() == 0 {
        Seq::empty()
    } else {
        match order {
            Some(o) => "<div class=\"series\">"@ + escaped(name) + " #"@ + dec_int(o as int)
                + "</div>"@,
            None => "<div class=\"series\">"@ + escaped(name) + "</div>"@,
        }
    }
}

/// The page of the first entry of a book.
pub open spec fn entry_link(json: Seq<char>) -> Option<Seq<char>> {
    match strings_of_json(json) {
        Some(ids) => if ids.len() > 0 && ids[0].len() > 0 {
            Some("https://claspclub.com/books/"@ + ids[0])
        } else {
            None
        },
        None => None,
    }
}

/// What a card shows.
pub open spec fn card_inner(b: ShelfRow, present: Seq<Seq<char>>) -> Seq<char> {
    badge(b.status@) + cover_part(cover_link(opt_str(b.cover_path), present), b.title@)
        + "<div class=\"meta\"><div class=\"t\">"@ + escaped(b.title@)
        + "</div><div class=\"a\">"@ + escaped(b.author@) + "</div>"@ + series_part(
        b.series_name@,
        b.series_order,
    ) + "</div>"@ + tip(b.status@, b.my_review@)
}

/// Card `idx` of the page.
pub open spec fn card(b: ShelfRow, idx: nat, present: Seq<Seq<char>>) -> Seq<char> {
    match entry_link(b.clasp_ids@) {
        Some(u) => "<a class=\"card\" href=\""@ + u
            + "\" target=\"_blank\" rel=\"noopener\" style=\"animation-delay:"@ + dec(idx * 45)
            + "ms\">"@ + card_inner(b, present) + "</a>"@,
        None => "<div class=\"card\" style=\"animation-delay:"@ + dec(idx * 45) + "ms\">"@
            + card_inner(b, present) + "</div>"@,
    }
}

fn cover_html(link: Option<String>, title: &str) -> (r: String)
    ensures
        r@ == cover_part(opt_str(link), title@),
{
    match link {
        Some(src) => "<img class=\"cover\" src=\"".to_owned().concat(&src).concat(
            "\" alt=\"cover\" loading=\"lazy\">",
        ),
        None => "<div class=\"cover placeholder\"><span>".to_owned().concat(&escape(title)).concat(
            "</span></div>",
        ),
    }
}

fn badge_html(status: &str) -> (r: String)
    ensures
        r@ == badge(status@),
{
    if same(status, "已读") {
        "<span class=\"badge read\">已读</span>".to_owned()
    } else if same(status, "在读") {
        "<span class=\"badge reading\">在读</span>".to_owned()
    } else {
        "<span class=\"badge wish\">想读</span>".to_owned()
    }
}

fn tip_html(status: &str, review: &str) -> (r: String)
    ensures
        r@ == tip(status@, review@),
{
    if same(status, "已读") && !blank(review) {
        "<div class=\"tip\"><b>我的短评</b>".to_owned().concat(&escape(review)).concat("</div>")
    } else {
        String::new()
    }
}

fn series_html(name: &str, order: Option<i64>) -> (r: String)
    ensures
        r@ == series_part(name@, order),
{
    if name.is_empty() {
        return String::new();
    }
    let head = "<div class=\"series\">".to_owned().concat(&escape(name));
    match order {
        Some(o) => head.concat(" #").concat(&dec_i64(o)).concat("</div>"),
        None => head.concat("</div>"),
    }
}

fn entry_url(json: &str) -> (r: Option<String>)
    ensures
        opt_str(r) == entry_link(json@),
{
    match read_strings(json) {
        Some(ids) => {
            if ids.len() > 0 {
                assert(strs(ids@)[0] == ids@[0]@);
                if !ids[0].as_str().is_empty() {
                    return Some("https://claspclub.com/books/".to_owned().concat(&ids[0]));
                }
            }
            None
        },
        None => None,
    }
}

/// Card `idx` of the page.
pub fn render_card(b: &ShelfRow, idx: usize, present: &Vec<String>) -> (r: String)
    requires
        idx * 45 <= u64::MAX,
    ensures
        r@ == card(*b, idx as nat, strs(present@)),
{
    let inner = badge_html(&b.status).concat(
        &cover_html(cover_rel(&b.cover_path, present), &b.title),
    ).concat("<div class=\"meta\"><div class=\"t\">").concat(&escape(&b.title)).concat(
        "</div><div class=\"a\">",
    ).concat(&escape(&b.author)).concat("</div>").concat(
        &series_html(&b.series_name, b.series_order),
    ).concat("</div>").concat(&tip_html(&b.status, &b.my_review));
    let delay = dec_u64(idx as u64 * 45);
    match entry_url(&b.clasp_ids) {
        Some(u) => "<a class=\"card\" href=\"".to_owned().concat(&u).concat(
            "\" target=\"_blank\" rel=\"noopener\" style=\"animation-delay:",
        ).concat(&delay).concat("ms\">").concat(&inner).concat("</a>"),
        None => "<div class=\"card\" style=\"animation-delay:".to_owned().concat(&delay).concat(
            "ms\">",
        ).concat(&inner).concat("</div>"),
    }
}

/// The cards of the first `n` books.
pub open spec fn cards(rows: Seq<ShelfRow>, present: Seq<Seq<char>>, n: nat) -> Seq<char>
    decreases n,
{
    if n == 0 || n > rows.len() {
        Seq::empty()
    } else {
        cards(rows, present, (n - 1) as nat) + card(rows[n - 1], (n - 1) as nat, present)
    }
}

/// The page from its template.
pub open spec fn page(template: Seq<char>, cards: Seq<char>, count: nat) -> Seq<char> {
    replace_all(replace_all(template, "__CARDS__"@, cards), "__COUNT__"@, dec(count))
}

/// The page from its template.
pub fn build_page(template: &str, cards: &str, count: usize) -> (r: String)
    ensures
        r@ == page(template@, cards@, count as nat),
{
    proof {
        reveal_strlit("__CARDS__");
        reveal_strlit("__COUNT__");
    }
    replaced(&replaced(template, "__CARDS__", cards), "__COUNT__", &dec_u64(count as u64))
}

/// The shelf page for the books.
pub fn shelf_page(template: &str, rows: &Vec<ShelfRow>, present: &Vec<String>) -> (r: String)
    requires
        rows@.len() * 45 <= u64::MAX,
    ensures
        r@ == page(template@, cards(rows@, strs(present@), rows@.len()), rows@.len()),
{
    let mut all = String::new();
    let mut i: usize = 0;
    while i < rows.len()
        invariant
            i <= rows@.len(),
            rows@.len() * 45 <= u64::MAX,
            all@ == cards(rows@, strs(present@), i as nat),
        decreases rows@.len() - i,
    {
        all = all.concat(&render_card(&rows[i], i, present));
        i += 1;
    }
    build_page(template, &all, rows.len())
}

// ---- what the shelf shows ----

/// A text is escaped character by character: what stands for two texts is what stands for the
/// first and what stands for the second, the marks of HTML stand for themselves no more, and
/// every other character does.
pub proof fn texts_are_escaped_character_by_character(a: Seq<char>, b: Seq<char>, c: char)
    ensures
        escaped(a + b) == escaped(a) + escaped(b),
        escaped(seq![c]) == (if c == '&' {
            "&amp;"@
        } else if c == '<' {
            "&lt;"@
        } else if c == '>' {
            "&gt;"@
        } else if c == '"' {
            "&quot;"@
        } else {
            seq![c]
        }),
    decreases b.len(),
{
    let one = seq![c];
    assert(one.drop_last() =~= Seq::<char>::empty());
    assert(escaped(one.drop_last()) =~= Seq::<char>::empty());
    assert(escaped(one) =~= escaped_char(c));
    if b.len() == 0 {
        assert(a + b =~= a);
        assert(escaped(a) + escaped(b) =~= escaped(a));
    } else {
        texts_are_escaped_character_by_character(a, b.drop_last(), c);
        assert((a + b).drop_last() =~= a + b.drop_last());
        assert(escaped(a + b) =~= escaped(a) + escaped(b));
    }
}

/// The card of a book shows its title and its author, the mark of its state, its series with the
/// volume where it has one, its cover where the file is there and its title where it is not, and
/// the reader's review where the book is read; it leads to the page of the first entry.
pub proof fn a_card_shows_its_book(b: ShelfRow, idx: nat, present: Seq<Seq<char>>)
    ensures
        has_part(card(b, idx, present), "<div class=\"t\">"@ + escaped(b.title@) + "</div>"@),
        has_part(card(b, idx, present), "<div class=\"a\">"@ + escaped(b.author@) + "</div>"@),
        b.status@ == "已读"@ ==> has_part(
            card(b, idx, present),
            "<span class=\"badge read\">已读</span>"@,
        ),
        b.status@ == "在读"@ ==> has_part(
            card(b, idx, present),
            "<span class=\"badge reading\">在读</span>"@,
        ),
        b.status@ != "已读"@ && b.status@ != "在读"@ ==> has_part(
            card(b, idx, present),
            "<span class=\"badge wish\">想读</span>"@,
        ),
        b.series_name@.len() > 0 && b.series_order is Some ==> has_part(
            card(b, idx, present),
            "<div class=\"series\">"@ + escaped(b.series_name@) + " #"@ + dec_int(
                b.series_order->0 as int,
            ) + "</div>"@,
        ),
        b.status@ == "已读"@ && !is_blank(b.my_review@) ==> has_part(
            card(b, idx, present),
            "<div class=\"tip\"><b>我的短评</b>"@ + escaped(b.my_review@) + "</div>"@,
        ),
        (b.cover_path matches Some(p) && path_name(p@) matches Some(n) && present.contains(n))
            ==> has_part(
            card(b, idx, present),
            "<img class=\"cover\" src=\""@ + ("covers/"@ + path_name((b.cover_path->0)@)->0)
                + "\" alt=\"cover\" loading=\"lazy\">"@,
        ),
        (strings_of_json(b.clasp_ids@) matches Some(ids) && ids.len() > 0 && ids[0].len() > 0)
            ==> has_part(
            card(b, idx, present),
            "https://claspclub.com/books/"@ + strings_of_json(b.clasp_ids@)->0[0],
        ),
{
    let mark = badge(b.status@);
    let cover = cover_part(cover_link(opt_str(b.cover_path), present), b.title@);
    let series = series_part(b.series_name@, b.series_order);
    let note = tip(b.status@, b.my_review@);
    let inner = card_inner(b, present);
    let d = "<div class=\"meta\">"@;
    let t0 = "<div class=\"t\">"@;
    let a0 = "<div class=\"a\">"@;
    let e = "</div>"@;
    let t = t0 + escaped(b.title@) + e;
    let a = a0 + escaped(b.author@) + e;
    let none = Seq::<char>::empty();
    assert("<div class=\"meta\"><div class=\"t\">"@ == d + t0 && "</div><div class=\"a\">"@ == e
        + a0) by {
        reveal_strlit("<div class=\"meta\"><div class=\"t\">");
        reveal_strlit("<div class=\"meta\">");
        reveal_strlit("<div class=\"t\">");
        reveal_strlit("</div><div class=\"a\">");
        reveal_strlit("<div class=\"a\">");
        reveal_strlit("</div>");
        assert("<div class=\"meta\"><div class=\"t\">"@ =~= d + t0);
        assert("</div><div class=\"a\">"@ =~= e + a0);
    }
    assert("已读"@ != "在读"@) by {
        reveal_strlit("已读");
        reveal_strlit("在读");
        assert("已读"@[0] != "在读"@[0]);
    }
    regroup(mark, cover, d, t0, escaped(b.title@), e, a0, escaped(b.author@), series, note);
    part_of_inner(b, idx, present, mark + cover + d, t, a + series + e + note);
    part_of_inner(b, idx, present, mark + cover + d + t, a, series + e + note);
    part_of_inner(b, idx, present, none, mark, cover + d + t + a + series + e + note);
    part_of_inner(b, idx, present, mark, cover, d + t + a + series + e + note);
    part_of_inner(b, idx, present, mark + cover + d + t + a, series, e + note);
    part_of_inner(b, idx, present, mark + cover + d + t + a + series + e, note, none);
    match entry_link(b.clasp_ids@) {
        Some(u) => {
            let tail = "\" target=\"_blank\" rel=\"noopener\" style=\"animation-delay:"@ + dec(
                idx * 45,
            ) + "ms\">"@ + inner + "</a>"@;
            assert(card(b, idx, present) =~= "<a class=\"card\" href=\""@ + u + tail);
            parts_stand_in_the_whole("<a class=\"card\" href=\""@, u, tail);
        },
        None => {},
    }
}

proof fn regroup(
    m: Seq<char>,
    c: Seq<char>,
    d: Seq<char>,
    t0: Seq<char>,
    ti: Seq<char>,
    e: Seq<char>,
    a0: Seq<char>,
    au: Seq<char>,
    s: Seq<char>,
    n: Seq<char>,
)
    ensures
        ({
            let all = m + c + (d + t0) + ti + (e + a0) + au + e + s + e + n;
            let t = t0 + ti + e;
            let a = a0 + au + e;
            let none = Seq::<char>::empty();
            &&& all == (m + c + d) + t + (a + s + e + n)
            &&& all == (m + c + d + t) + a + (s + e + n)
            &&& all == none + m + (c + d + t + a + s + e + n)
            &&& all == m + c + (d + t + a + s + e + n)
            &&& all == (m + c + d + t + a) + s + (e + n)
            &&& all == (m + c + d + t + a + s + e) + n + none
        }),
{
    let all = m + c + (d + t0) + ti + (e + a0) + au + e + s + e + n;
    let t = t0 + ti + e;
    let a = a0 + au + e;
    let none = Seq::<char>::empty();
    assert(all =~= (m + c + d) + t + (a + s + e + n));
    assert(all =~= (m + c + d + t) + a + (s + e + n));
    assert(all =~= none + m + (c + d + t + a + s + e + n));
    assert(all =~= m + c + (d + t + a + s + e + n));
    assert(all =~= (m + c + d + t + a) + s + (e + n));
    assert(all =~= (m + c + d + t + a + s + e) + n + none);
}

proof fn card_holds(b: ShelfRow, idx: nat, present: Seq<Seq<char>>)
    ensures
        exists|x: Seq<char>, y: Seq<char>|
            card(b, idx, present) == #[trigger] (x + card_inner(b, present) + y),
{
    let inner = card_inner(b, present);
    match entry_link(b.clasp_ids@) {
        Some(u) => {
            let x = "<a class=\"card\" href=\""@ + u
                + "\" target=\"_blank\" rel=\"noopener\" style=\"animation-delay:"@ + dec(idx * 45)
                + "ms\">"@;
            assert(card(b, idx, present) == x + inner + "</a>"@);
        },
        None => {
            let x = "<div class=\"card\" style=\"animation-delay:"@ + dec(idx * 45) + "ms\">"@;
            assert(card(b, idx, present) == x + inner + "</div>"@);
        },
    }
}

proof fn part_of_inner(
    b: ShelfRow,
    idx: nat,
    present: Seq<Seq<char>>,
    x: Seq<char>,
    p: Seq<char>,
    y: Seq<char>,
)
    requires
        card_inner(b, present) == x + p + y,
    ensures
        has_part(card(b, idx, present), p),
{
    card_holds(b, idx, present);
    let (u, v) = choose|u: Seq<char>, v: Seq<char>|
        card(b, idx, present) == #[trigger] (u + card_inner(b, present) + v);
    assert(card(b, idx, present) =~= (u + x) + p + (y + v));
    parts_stand_in_the_whole(u + x, p, y + v);
}

/// The shelf has the card of every book, in their order.
pub proof fn the_shelf_has_every_book(rows: Seq<ShelfRow>, present: Seq<Seq<char>>, i: int)
    requires
        0 <= i < rows.len(),
    ensures
        has_part(cards(rows, present, rows.len()), card(rows[i], i as nat, present)),
        cards(rows, present, (i + 1) as nat).is_prefix_of(cards(rows, present, rows.len())),
{
    cards_go_on(rows, present, (i + 1) as nat, rows.len());
    let all = cards(rows, present, rows.len());
    let one = cards(rows, present, (i + 1) as nat);
    let rest = all.skip(one.len() as int);
    let before = cards(rows, present, i as nat);
    assert(all =~= before + card(rows[i], i as nat, present) + rest);
    parts_stand_in_the_whole(before, card(rows[i], i as nat, present), rest);
}

proof fn cards_go_on(rows: Seq<ShelfRow>, present: Seq<Seq<char>>, m: nat, n: nat)
    requires
        m <= n <= rows.len(),
    ensures
        cards(rows, present, m).is_prefix_of(cards(rows, present, n)),
    decreases n,
{
    if m < n {
        cards_go_on(rows, present, m, (n - 1) as nat);
    }
}

} // verus!
