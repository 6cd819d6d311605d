//! Small tools for texts: counting, normalising, tags and names of files.
use vstd::prelude::*;
use vstd::string::*;

use crate::patterns::{first_group, first_match};
use crate::text::{
    chars_of, is_blank, is_white, join, joined, opt_str, same, split, split_by, split_nonempty,
    split_on, split_words, string_of_range, strs, strs_push, trim, trim_end, trim_is_tight,
    trim_start, trimmed, words,
};
use crate::seqs::filter_from;

verus! {

/// Whether `c` is a Chinese character of the main block.
pub open spec fn is_han(c: char) -> bool {
    '\u{4e00}' <= c <= '\u{9fff}'
}

/// How many Chinese characters `s` has.
pub open spec fn han_count(s: Seq<char>) -> nat
    decreases s.len(),
{
    if s.len() == 0 {
        0
    } else {
        han_count(s.drop_last()) + (if is_han(s.last()) {
            1nat
        } else {
            0
        })
    }
}

/// How many Chinese characters `s` has.
pub fn count_han(s: &str) -> (r: usize)
    ensures
        r == han_count(s@),
{
    let v = chars_of(s);
    let mut n: usize = 0;
    let mut i: usize = 0;
    assert(v@.take(0) =~= Seq::<char>::empty());
    while i < v.len()
        invariant
            i <= v@.len(),
            n <= i,
            n == han_count(v@.take(i as int)),
        decreases v@.len() - i,
    {
        assert(v@.take(i + 1).drop_last() =~= v@.take(i as int));
        if '\u{4e00}' <= v[i] && v[i] <= '\u{9fff}' {
            n += 1;
        }
        i += 1;
    }
    assert(v@.take(v@.len() as int) =~= s@);
    n
}

/// A text in simplified characters.
pub uninterp spec fn simplified(s: Seq<char>) -> Seq<char>;

/// `character_converter::traditional_to_simplified`: the text with each longest known word
/// in its simplified form. Which words are known is left to the name.
#[verifier::external_body]
pub fn to_simplified(text: &str) -> (r: String)
    ensures
        r@ == simplified(text@),
{
    character_converter::traditional_to_simplified(text).into_owned()
}

// ---- names of files ----

/// The last part of a path that names something: empty parts and `.` do not.
pub open spec fn last_named(parts: Seq<Seq<char>>) -> Option<Seq<char>>
    decreases parts.len(),
{
    if parts.len() == 0 {
        None
    } else if parts.last().len() == 0 || parts.last() == "."@ {
        last_named(parts.drop_last())
    } else {
        Some(parts.last())
    }
}

/// Where the last dot stands in `s`.
pub open spec fn last_dot(s: Seq<char>) -> Option<int>
    decreases s.len(),
{
    if s.len() == 0 {
        None
    } else if s.last() == '.' {
        Some(s.len() - 1)
    } else {
        last_dot(s.drop_last())
    }
}

/// The name of a file without its extension; a name that begins with its only dot has
/// none.
pub open spec fn stem_of(name: Seq<char>) -> Seq<char> {
    match last_dot(name) {
        Some(i) => if i > 0 {
            name.take(i)
        } else {
            name
        },
        None => name,
    }
}

/// The name of the file at `path` without its extension; nothing where the path ends in
/// no name.
pub open spec fn path_stem(path: Seq<char>) -> Seq<char> {
    match path_name(path) {
        Some(n) => stem_of(n),
        None => Seq::empty(),
    }
}

/// The name of the file at `path` without its extension; nothing where the path ends in
/// no name.
pub fn filename_stem(path: &str) -> (r: String)
    ensures
        r@ == path_stem(path@),
{
    match file_name_of(path) {
        Some(n) => stem(&n),
        None => String::new(),
    }
}

fn stem(name: &str) -> (r: String)
    ensures
        r@ == stem_of(name@),
{
    let v = chars_of(name);
    let mut i: usize = v.len();
    assert(v@.take(v@.len() as int) =~= v@);
    while i > 0
        invariant
            i <= v@.len(),
            v@ == name@,
            last_dot(v@) == last_dot(v@.take(i as int)),
        decreases i,
    {
        assert(v@.take(i as int).drop_last() =~= v@.take(i - 1));
        if v[i - 1] == '.' {
            if i == 1 {
                return name.to_owned();
            }
            assert(v@.take(i - 1) =~= v@.subrange(0, i - 1));
            return string_of_range(&v, 0, i - 1);
        }
        i -= 1;
    }
    name.to_owned()
}

/// The extension of a name: what stands behind its last dot, where that is not its first
/// character.
pub open spec fn name_extension(name: Seq<char>) -> Option<Seq<char>> {
    match last_dot(name) {
        Some(i) => if i > 0 {
            Some(name.skip(i + 1))
        } else {
            None
        },
        None => None,
    }
}

/// The extension of a name.
pub fn extension_of_name(name: &str) -> (r: Option<String>)
    ensures
        opt_str(r) == name_extension(name@),
{
    let v = chars_of(name);
    let _len: usize = v.len();
    let mut i: usize = v.len();
    assert(v@.take(v@.len() as int) =~= v@);
    while i > 0
        invariant
            i <= v@.len() <= usize::MAX,
            v@ == name@,
            last_dot(v@) == last_dot(v@.take(i as int)),
        decreases i,
    {
        assert(v@.take(i as int).drop_last() =~= v@.take(i - 1));
        if v[i - 1] == '.' {
            if i == 1 {
                return None;
            }
            assert(v@.skip(i as int) =~= v@.subrange(i as int, v@.len() as int));
            return Some(string_of_range(&v, i, v.len()));
        }
        i -= 1;
    }
    None
}

/// The name that a path ends in, where it ends in one.
pub open spec fn path_name(path: Seq<char>) -> Option<Seq<char>> {
    match last_named(split_on(path, seq!['/'])) {
        Some(n) => if n == ".."@ {
            None
        } else {
            Some(n)
        },
        None => None,
    }
}

/// The name that a path ends in, where it ends in one.
pub fn file_name_of(path: &str) -> (r: Option<String>)
    ensures
        opt_str(r) == path_name(path@),
{
    let mut slash: Vec<char> = Vec::new();
    slash.push('/');
    assert(slash@ =~= seq!['/']);
    let parts = split(path, &slash);
    let ghost all = strs(parts@);
    let mut i: usize = parts.len();
    assert(all.take(all.len() as int) =~= all);
    while i > 0
        invariant
            i <= parts@.len(),
            all == strs(parts@),
            last_named(all) == last_named(all.take(i as int)),
            all == split_on(path@, seq!['/']),
        decreases i,
    {
        let name = &parts[i - 1];
        assert(all.take(i as int).last() == name@);
        assert(all.take(i as int).drop_last() =~= all.take(i - 1));
        if !name.as_str().is_empty() && !same(name, ".") {
            if same(name, "..") {
                return None;
            }
            return Some(name.as_str().to_owned());
        }
        i -= 1;
    }
    None
}

/// The extension of the file at `path`.
pub open spec fn path_extension(path: Seq<char>) -> Option<Seq<char>> {
    match path_name(path) {
        Some(n) => name_extension(n),
        None => None,
    }
}

/// The extension of the file at `path`.
pub fn extension_of(path: &str) -> (r: Option<String>)
    ensures
        opt_str(r) == path_extension(path@),
{
    match file_name_of(path) {
        Some(n) => extension_of_name(&n),
        None => None,
    }
}

// ---- white space and tags ----

/// `s` with one space for each run of white space, and none at its ends.
pub open spec fn ws_normal(s: Seq<char>) -> Seq<char> {
    join(words(s), " "@)
}

/// `s` with one space for each run of white space, and none at its ends.
pub fn normalize_ws(s: &str) -> (r: String)
    ensures
        r@ == ws_normal(s@),
{
    joined(&split_words(s), " ")
}

/// The values that are not blank, without white space at their ends.
pub open spec fn tidy(v: Seq<Seq<char>>) -> Seq<Seq<char>>
    decreases v.len(),
{
    if v.len() == 0 {
        Seq::empty()
    } else if is_blank(v.last()) {
        tidy(v.drop_last())
    } else {
        tidy(v.drop_last()).push(trim(v.last()))
    }
}

/// The values that are not blank, without white space at their ends.
pub fn tidied(v: &Vec<String>) -> (r: Vec<String>)
    ensures
        strs(r@) == tidy(strs(v@)),
{
    let ghost all = strs(v@);
    let mut out: Vec<String> = Vec::new();
    let mut i: usize = 0;
    assert(strs(out@) =~= tidy(all.take(0)));
    while i < v.len()
        invariant
            i <= v@.len(),
            all == strs(v@),
            strs(out@) == tidy(all.take(i as int)),
        decreases v@.len() - i,
    {
        let t = trimmed(&v[i]);
        proof {
            assert(all.take(i + 1).drop_last() =~= all.take(i as int));
            assert(all.take(i + 1).last() == v@[i as int]@);
            strs_push(out@, t);
        }
        if !t.as_str().is_empty() {
            out.push(t);
        }
        i += 1;
    }
    assert(all.take(v@.len() as int) =~= all);
    out
}

/// The tags with a comma and a space between them.
pub fn join_tags(tags: &Vec<String>) -> (r: String)
    ensures
        r@ == join(strs(tags@), ", "@),
{
    joined(tags, ", ")
}

/// The tags in a text: what stands between commas, of either form, and is not blank.
pub open spec fn tags_in(s: Seq<char>) -> Seq<Seq<char>> {
    tidy(split_on(s, seq![',', '，']))
}

/// The tags in a text: what stands between commas, of either form, and is not blank.
pub fn split_tags(s: &str) -> (r: Vec<String>)
    ensures
        strs(r@) == tags_in(s@),
{
    let mut commas: Vec<char> = Vec::new();
    commas.push(',');
    commas.push('，');
    assert(commas@ =~= seq![',', '，']);
    tidied(&split(s, &commas))
}

/// The title of a page.
pub open spec fn page_title(xhtml: Seq<char>) -> Option<Seq<char>> {
    match first_group("(?is)<title[^>]*>(.*?)</title>"@, xhtml) {
        Some(t) => if is_blank(t) {
            None
        } else {
            Some(trim(t))
        },
        None => None,
    }
}

/// The title of a page: the text of its first `title` element, where it is not blank.
pub fn html_title(xhtml: &str) -> (r: Option<String>)
    ensures
        opt_str(r) == page_title(xhtml@),
{
    match first_match("(?is)<title[^>]*>(.*?)</title>", xhtml) {
        Some(t) => {
            let t = trimmed(&t);
            if t.as_str().is_empty() {
                None
            } else {
                Some(t)
            }
        },
        None => None,
    }
}

// ---- laws ----

/// Whether no character of `s` is cut.
pub open spec fn uncut(s: Seq<char>, cut: spec_fn(char) -> bool) -> bool {
    forall|i: int| 0 <= i < s.len() ==> !cut(#[trigger] s[i])
}

proof fn split_extends(s: Seq<char>, t: Seq<char>, cut: spec_fn(char) -> bool)
    requires
        uncut(t, cut),
    ensures
        split_by(s, cut).len() >= 1,
        split_by(s + t, cut) == split_by(s, cut).update(
            split_by(s, cut).len() - 1,
            split_by(s, cut).last() + t,
        ),
    decreases t.len(),
{
    let p = split_by(s, cut);
    split_nonempty(s, cut);
    if t.len() == 0 {
        assert(s + t =~= s);
        assert(p.last() + t =~= p.last());
        assert(p.update(p.len() - 1, p.last() + t) =~= p);
    } else {
        assert forall|i: int| 0 <= i < t.drop_last().len() implies !cut(
            #[trigger] t.drop_last()[i],
        ) by {
            assert(!cut(t[i]));
        }
        split_extends(s, t.drop_last(), cut);
        assert((s + t).drop_last() =~= s + t.drop_last());
        assert((s + t).last() == t.last());
        assert(!cut(t[t.len() - 1]));
        let q = split_by(s + t.drop_last(), cut);
        assert(q.last().push(t.last()) =~= p.last() + t);
        assert(q.update(q.len() - 1, q.last().push(t.last())) =~= p.update(
            p.len() - 1,
            p.last() + t,
        ));
    }
}

proof fn split_of_join(
    parts: Seq<Seq<char>>,
    mark: char,
    lead: Seq<char>,
    cut: spec_fn(char) -> bool,
)
    requires
        parts.len() > 0,
        cut(mark),
        uncut(lead, cut),
        forall|i: int| 0 <= i < parts.len() ==> uncut(#[trigger] parts[i], cut),
    ensures
        split_by(join(parts, seq![mark] + lead), cut) == Seq::new(
            parts.len(),
            |i: int|
                if i == 0 {
                    parts[0]
                } else {
                    lead + parts[i]
                },
        ),
    decreases parts.len(),
{
    let sep = seq![mark] + lead;
    let want = Seq::new(
        parts.len(),
        |i: int|
            if i == 0 {
                parts[0]
            } else {
                lead + parts[i]
            },
    );
    let none = Seq::<char>::empty();
    if parts.len() == 1 {
        assert(uncut(parts[0], cut));
        split_extends(none, parts[0], cut);
        assert(none + parts[0] =~= parts[0]);
        assert(split_by(none, cut) =~= seq![none]);
        assert(split_by(parts[0], cut) =~= want);
    } else {
        let rest = parts.drop_last();
        assert forall|i: int| 0 <= i < rest.len() implies uncut(#[trigger] rest[i], cut) by {
            assert(uncut(parts[i], cut));
        }
        split_of_join(rest, mark, lead, cut);
        let j = join(rest, sep);
        let tail = lead + parts.last();
        assert(uncut(parts[parts.len() - 1], cut));
        assert forall|i: int| 0 <= i < tail.len() implies !cut(#[trigger] tail[i]) by {
            if i < lead.len() {
                assert(!cut(lead[i]));
            } else {
                assert(!cut(parts.last()[i - lead.len()]));
            }
        }
        split_extends(j.push(mark), tail, cut);
        assert(j.push(mark) + tail =~= j + sep + parts.last());
        assert(j.push(mark).drop_last() =~= j);
        let p = split_by(j, cut).push(none);
        assert(split_by(j.push(mark), cut) =~= p);
        assert(none + tail =~= tail);
        assert(p.update(p.len() - 1, p.last() + tail) =~= want);
    }
}

/// Whether `tag` is a tag as the split of a text gives it: not blank, without white space at
/// its ends, and without a comma.
pub open spec fn is_tag(tag: Seq<char>) -> bool {
    tag.len() > 0 && trim(tag) == tag && !tag.contains(',') && !tag.contains('，')
}

proof fn trimmed_is_uncut(s: Seq<char>, cut: spec_fn(char) -> bool)
    requires
        uncut(s, cut),
    ensures
        uncut(trim(s), cut),
{
    start_is_part(s);
    end_is_part(trim_start(s));
    let t = trim(s);
    assert forall|i: int| 0 <= i < t.len() implies !cut(#[trigger] t[i]) by {
        assert(t.contains(t[i]));
        let u = trim_start(s);
        assert(u.contains(t[i]));
        assert(s.contains(t[i]));
        let k = choose|k: int| 0 <= k < s.len() && s[k] == t[i];
        assert(!cut(s[k]));
    }
}

proof fn start_is_part(s: Seq<char>)
    ensures
        forall|c: char| trim_start(s).contains(c) ==> s.contains(c),
    decreases s.len(),
{
    if s.len() > 0 && is_white(s[0]) {
        start_is_part(s.drop_first());
        assert forall|c: char| trim_start(s).contains(c) implies s.contains(c) by {
            let rest = s.drop_first();
            assert(rest.contains(c));
            let k = choose|k: int| 0 <= k < rest.len() && rest[k] == c;
            assert(s[k + 1] == c);
        }
    }
}

proof fn end_is_part(s: Seq<char>)
    ensures
        forall|c: char| trim_end(s).contains(c) ==> s.contains(c),
    decreases s.len(),
{
    if s.len() > 0 && is_white(s.last()) {
        end_is_part(s.drop_last());
        assert forall|c: char| trim_end(s).contains(c) implies s.contains(c) by {
            let rest = s.drop_last();
            assert(rest.contains(c));
            let k = choose|k: int| 0 <= k < rest.len() && rest[k] == c;
            assert(s[k] == c);
        }
    }
}

proof fn tidy_pieces_are_tags(v: Seq<Seq<char>>)
    requires
        forall|i: int|
            0 <= i < v.len() ==> uncut(#[trigger] v[i], |c: char| seq![',', '，'].contains(c)),
    ensures
        forall|i: int| 0 <= i < tidy(v).len() ==> is_tag(#[trigger] tidy(v)[i]),
    decreases v.len(),
{
    let seps = seq![',', '，'];
    let cut = |c: char| seps.contains(c);
    if v.len() > 0 {
        let init = v.drop_last();
        assert forall|i: int| 0 <= i < init.len() implies uncut(#[trigger] init[i], cut) by {
            assert(uncut(v[i], cut));
        }
        tidy_pieces_are_tags(init);
        assert(uncut(v[v.len() - 1], cut));
        if !is_blank(v.last()) {
            let t = trim(v.last());
            trimmed_is_uncut(v.last(), cut);
            trim_is_tight(v.last());
            assert(seps[0] == ',' && seps[1] == '，');
            assert(!t.contains(',')) by {
                if t.contains(',') {
                    let k = choose|k: int| 0 <= k < t.len() && t[k] == ',';
                    assert(!cut(t[k]));
                }
            }
            assert(!t.contains('，')) by {
                if t.contains('，') {
                    let k = choose|k: int| 0 <= k < t.len() && t[k] == '，';
                    assert(!cut(t[k]));
                }
            }
            assert(is_tag(t));
            let before = tidy(init);
            assert(tidy(v) == before.push(t));
            assert forall|i: int| 0 <= i < tidy(v).len() implies is_tag(#[trigger] tidy(v)[i]) by {
                if i < before.len() {
                    assert(is_tag(before[i]));
                }
            }
        }
    }
}

/// Whatever the text, each of the tags in it is a tag.
pub proof fn split_tags_are_tags(s: Seq<char>)
    ensures
        forall|i: int| 0 <= i < tags_in(s).len() ==> is_tag(#[trigger] tags_in(s)[i]),
{
    let seps = seq![',', '，'];
    let cut = |c: char| seps.contains(c);
    pieces_are_uncut(s, cut);
    assert(split_on(s, seps) == split_by(s, cut));
    tidy_pieces_are_tags(split_on(s, seps));
}

/// The Chinese characters of joined texts add up.
pub proof fn han_counts_add_up(a: Seq<char>, b: Seq<char>)
    ensures
        han_count(a + b) == han_count(a) + han_count(b),
    decreases b.len(),
{
    if b.len() == 0 {
        assert(a + b =~= a);
    } else {
        han_counts_add_up(a, b.drop_last());
        assert((a + b).drop_last() =~= a + b.drop_last());
        assert((a + b).last() == b.last());
    }
}

proof fn tidy_of_led(tags: Seq<Seq<char>>, led: Seq<Seq<char>>)
    requires
        led.len() == tags.len(),
        forall|i: int| 0 <= i < tags.len() ==> is_tag(#[trigger] tags[i]),
        forall|i: int|
            0 <= i < tags.len() ==> #[trigger] led[i] == (if i == 0 {
                tags[0]
            } else {
                seq![' '] + tags[i]
            }),
    ensures
        tidy(led) == tags,
    decreases tags.len(),
{
    if tags.len() == 0 {
        assert(tidy(led) =~= tags);
    } else {
        let k = tags.len() - 1;
        tidy_of_led(tags.drop_last(), led.drop_last());
        assert(is_tag(tags[k]));
        if k > 0 {
            assert((seq![' '] + tags[k]).drop_first() =~= tags[k]);
        }
        assert(trim(led[k]) == tags[k]);
        assert(tidy(led) =~= tags);
    }
}

/// Splitting what was joined gives the tags back.
pub proof fn split_undoes_join(tags: Seq<Seq<char>>)
    requires
        forall|i: int| 0 <= i < tags.len() ==> is_tag(#[trigger] tags[i]),
    ensures
        tags_in(join(tags, ", "@)) == tags,
{
    reveal_strlit(", ");
    let seps = seq![',', '，'];
    let cut = |c: char| seps.contains(c);
    assert(", "@ =~= seq![','] + seq![' ']);
    assert(seps[0] == ',' && seps[1] == '，');
    if tags.len() == 0 {
        let s = Seq::<char>::empty();
        assert(join(tags, ", "@) =~= s);
        assert(split_on(s, seps) =~= seq![s]);
        assert(seq![s].drop_last() =~= Seq::<Seq<char>>::empty());
        assert(seq![s].last() == s && is_blank(s));
        assert(tidy(Seq::<Seq<char>>::empty()) =~= tags);
        assert(tidy(seq![s]) == tidy(seq![s].drop_last()));
    } else {
        assert forall|i: int| 0 <= i < tags.len() implies uncut(#[trigger] tags[i], cut) by {
            assert(is_tag(tags[i]));
            assert forall|k: int| 0 <= k < tags[i].len() implies !cut(#[trigger] tags[i][k]) by {
                assert(tags[i].contains(tags[i][k]));
            }
        }
        split_of_join(tags, ',', seq![' '], cut);
        let led = split_by(join(tags, ", "@), cut);
        tidy_of_led(tags, led);
    }
}

proof fn pieces_are_uncut(s: Seq<char>, cut: spec_fn(char) -> bool)
    ensures
        forall|i: int| 0 <= i < split_by(s, cut).len() ==> uncut(#[trigger] split_by(s, cut)[i], cut),
    decreases s.len(),
{
    if s.len() > 0 {
        pieces_are_uncut(s.drop_last(), cut);
        split_nonempty(s.drop_last(), cut);
        let p = split_by(s.drop_last(), cut);
        assert forall|i: int| 0 <= i < split_by(s, cut).len() implies uncut(
            #[trigger] split_by(s, cut)[i],
            cut,
        ) by {
            if i < p.len() {
                assert(uncut(p[i], cut));
            }
        }
    }
}

proof fn filter_keeps_all<A>(s: Seq<A>, f: spec_fn(A) -> bool)
    requires
        forall|i: int| 0 <= i < s.len() ==> f(#[trigger] s[i]),
    ensures
        s.filter(f) == s,
    decreases s.len(),
{
    reveal(Seq::filter);
    if s.len() > 0 {
        assert(f(s[s.len() - 1]));
        assert forall|i: int| 0 <= i < s.drop_last().len() implies f(#[trigger] s.drop_last()[i]) by {
            assert(f(s[i]));
        }
        filter_keeps_all(s.drop_last(), f);
        assert(s.drop_last().push(s.last()) =~= s);
    }
}

/// Normalising white space keeps the words.
pub proof fn normalising_keeps_the_words(s: Seq<char>)
    ensures
        words(ws_normal(s)) == words(s),
{
    reveal_strlit(" ");
    let cut = |c: char| is_white(c);
    let full = |w: Seq<char>| w.len() > 0;
    let pieces = split_by(s, cut);
    let ws = words(s);
    pieces_are_uncut(s, cut);
    assert(ws == pieces.filter(full));
    filter_from(pieces, full);
    assert forall|i: int| 0 <= i < ws.len() implies full(#[trigger] ws[i]) && uncut(ws[i], cut) by {
    }
    let t = join(ws, " "@);
    assert(" "@ =~= seq![' '] + Seq::<char>::empty());
    if ws.len() == 0 {
        assert(t =~= Seq::<char>::empty());
        assert(split_by(t, cut) =~= seq![t]);
        reveal(Seq::filter);
        assert(seq![t].drop_last() =~= Seq::<Seq<char>>::empty());
        assert(Seq::<Seq<char>>::empty().filter(full) =~= Seq::<Seq<char>>::empty());
        assert(words(t) =~= ws);
    } else {
        split_of_join(ws, ' ', Seq::empty(), cut);
        assert forall|i: int| 0 <= i < ws.len() implies #[trigger] split_by(t, cut)[i] == ws[i] by {
            assert(Seq::<char>::empty() + ws[i] =~= ws[i]);
        }
        assert(split_by(t, cut) =~= ws);
        filter_keeps_all(ws, full);
        assert(words(t) == ws);
    }
}

/// Normalising white space once more changes nothing.
pub proof fn normalising_twice_changes_nothing(s: Seq<char>)
    ensures
        ws_normal(ws_normal(s)) == ws_normal(s),
{
    normalising_keeps_the_words(s);
}

/// Whether the only white space in `s` is single spaces, none of them at its ends.
pub open spec fn is_tight(s: Seq<char>) -> bool {
    &&& s.len() > 0 ==> !is_white(s[0]) && !is_white(s.last())
    &&& forall|i: int| 0 <= i < s.len() && is_white(#[trigger] s[i]) ==> s[i] == ' '
    &&& forall|i: int, j: int|
        0 <= i < s.len() && j == i + 1 && j < s.len() ==> !(is_white(#[trigger] s[i]) && is_white(
            #[trigger] s[j],
        ))
}

proof fn joined_words_are_tight(ws: Seq<Seq<char>>)
    requires
        forall|i: int|
            0 <= i < ws.len() ==> (#[trigger] ws[i]).len() > 0 && uncut(
                ws[i],
                |c: char| is_white(c),
            ),
    ensures
        is_tight(join(ws, " "@)),
        ws.len() > 0 ==> join(ws, " "@).len() > 0,
    decreases ws.len(),
{
    reveal_strlit(" ");
    let cut = |c: char| is_white(c);
    if ws.len() == 1 {
        assert(uncut(ws[0], cut));
        assert forall|i: int| 0 <= i < ws[0].len() implies !is_white(#[trigger] ws[0][i]) by {
            assert(!cut(ws[0][i]));
        }
    } else if ws.len() > 1 {
        let init = ws.drop_last();
        assert forall|i: int| 0 <= i < init.len() implies (#[trigger] init[i]).len() > 0 && uncut(
            init[i],
            cut,
        ) by {
            assert(ws[i].len() > 0 && uncut(ws[i], cut));
        }
        joined_words_are_tight(init);
        let a = join(init, " "@);
        let b = ws[ws.len() - 1];
        assert(b.len() > 0 && uncut(b, cut));
        assert forall|i: int| 0 <= i < b.len() implies !is_white(#[trigger] b[i]) by {
            assert(!cut(b[i]));
        }
        let t = join(ws, " "@);
        assert(t == a + " "@ + b);
        assert forall|i: int| 0 <= i < t.len() implies #[trigger] t[i] == (if i < a.len() {
            a[i]
        } else if i == a.len() {
            ' '
        } else {
            b[i - a.len() - 1]
        }) by {}
        assert(t.last() == b[b.len() - 1]);
    }
}

/// In a text whose white space is normalised no white space stands at the ends, and single
/// spaces part the words.
pub proof fn normal_text_is_tight(s: Seq<char>)
    ensures
        is_tight(ws_normal(s)),
{
    let cut = |c: char| is_white(c);
    let full = |w: Seq<char>| w.len() > 0;
    let pieces = split_by(s, cut);
    pieces_are_uncut(s, cut);
    assert(words(s) == pieces.filter(full));
    filter_from(pieces, full);
    let ws = words(s);
    assert forall|i: int| 0 <= i < ws.len() implies (#[trigger] ws[i]).len() > 0 && uncut(
        ws[i],
        cut,
    ) by {
        assert(full(ws[i]));
    }
    joined_words_are_tight(ws);
}

/// The Chinese characters that are counted are those from U+4E00 to U+9FFF, each time they
/// stand in the text.
pub proof fn han_are_those_of_the_block(s: Seq<char>)
    ensures
        han_count(s) == s.filter(|c: char| '\u{4e00}' <= c && c <= '\u{9fff}').len(),
        han_count(s) > 0 <==> exists|i: int|
            0 <= i < s.len() && '\u{4e00}' <= #[trigger] s[i] && s[i] <= '\u{9fff}',
    decreases s.len(),
{
    reveal(Seq::filter);
    if s.len() > 0 {
        let init = s.drop_last();
        han_are_those_of_the_block(init);
        if han_count(init) > 0 {
            let i = choose|i: int|
                0 <= i < init.len() && '\u{4e00}' <= #[trigger] init[i] && init[i] <= '\u{9fff}';
            assert(s[i] == init[i]);
        } else if exists|i: int|
            0 <= i < s.len() && '\u{4e00}' <= #[trigger] s[i] && s[i] <= '\u{9fff}' {
            let i = choose|i: int|
                0 <= i < s.len() && '\u{4e00}' <= #[trigger] s[i] && s[i] <= '\u{9fff}';
            if i < init.len() {
                assert(init[i] == s[i]);
            }
        }
    }
}

/// What is tidied is what is not blank, without the white space at its ends, in the order
/// given. `m` says where each stood.
pub proof fn tidy_keeps_what_is_not_blank(v: Seq<Seq<char>>) -> (m: Seq<int>)
    ensures
        m.len() == tidy(v).len(),
        forall|i: int|
            0 <= i < m.len() ==> 0 <= #[trigger] m[i] < v.len() && !is_blank(v[m[i]]) && tidy(v)[i]
                == trim(v[m[i]]),
        forall|i: int, j: int| 0 <= i < j < m.len() ==> #[trigger] m[i] < #[trigger] m[j],
        forall|p: int| 0 <= p < v.len() && !is_blank(#[trigger] v[p]) ==> m.contains(p),
    decreases v.len(),
{
    if v.len() == 0 {
        Seq::empty()
    } else {
        let init = v.drop_last();
        let before = tidy_keeps_what_is_not_blank(init);
        let last = v.len() - 1;
        let m = if is_blank(v.last()) {
            before
        } else {
            before.push(last)
        };
        assert forall|i: int| 0 <= i < m.len() implies 0 <= #[trigger] m[i] < v.len() && !is_blank(
            v[m[i]],
        ) && tidy(v)[i] == trim(v[m[i]]) by {
            if i < before.len() {
                assert(m[i] == before[i]);
                assert(init[before[i]] == v[m[i]]);
            }
        }
        assert forall|i: int, j: int| 0 <= i < j < m.len() implies #[trigger] m[i]
            < #[trigger] m[j] by {
            assert(m[i] == before[i]);
            if j < before.len() {
                assert(m[j] == before[j]);
            }
        }
        assert forall|p: int| 0 <= p < v.len() && !is_blank(#[trigger] v[p]) implies m.contains(
            p,
        ) by {
            if p < last {
                assert(!is_blank(init[p]));
                assert(before.contains(p));
                let i = choose|i: int| 0 <= i < before.len() && before[i] == p;
                assert(m[i] == p);
            } else {
                assert(m[before.len() as int] == p);
            }
        }
        m
    }
}

proof fn dot_is_last(s: Seq<char>, t: Seq<char>)
    requires
        !t.contains('.'),
    ensures
        last_dot(s.push('.') + t) == Some(s.len() as int),
        last_dot(t) is None,
    decreases t.len(),
{
    if t.len() == 0 {
        assert(s.push('.') + t =~= s.push('.'));
    } else {
        let d = t.drop_last();
        assert(t.contains(t[t.len() - 1]));
        assert(!d.contains('.')) by {
            if d.contains('.') {
                let k = choose|k: int| 0 <= k < d.len() && d[k] == '.';
                assert(t[k] == '.');
            }
        }
        dot_is_last(s, d);
        assert((s.push('.') + t).drop_last() =~= s.push('.') + d);
        assert((s.push('.') + t).last() == t.last());
    }
}

/// The extension of a name stands behind its last dot, and the rest of it before. A name whose
/// only dot comes first, or that has none, is all stem.
pub proof fn a_name_is_stem_and_extension(stem: Seq<char>, ext: Seq<char>)
    requires
        !ext.contains('.'),
    ensures
        stem.len() > 0 ==> stem_of(stem.push('.') + ext) == stem && name_extension(
            stem.push('.') + ext,
        ) == Some(ext),
        stem.len() == 0 ==> stem_of(stem.push('.') + ext) == stem.push('.') + ext && name_extension(
            stem.push('.') + ext,
        ) is None,
        stem_of(ext) == ext,
        name_extension(ext) is None,
{
    dot_is_last(stem, ext);
    let s = stem.push('.') + ext;
    assert(s.take(stem.len() as int) =~= stem);
    assert(s.skip((stem.len() + 1) as int) =~= ext);
}

/// The name of a path is the last of its parts that is neither empty nor a dot; a path that ends
/// in two dots has none.
pub proof fn the_last_part_names_a_path(parts: Seq<Seq<char>>, name: Seq<char>, k: int)
    requires
        0 <= k < parts.len(),
        parts[k] == name,
        name.len() > 0,
        name != "."@,
        forall|i: int| k < i < parts.len() ==> (#[trigger] parts[i]).len() == 0 || parts[i] == "."@,
    ensures
        last_named(parts) == Some(name),
    decreases parts.len(),
{
    if k < parts.len() - 1 {
        let d = parts.drop_last();
        assert(parts[parts.len() - 1] == parts.last());
        assert(forall|i: int| 0 <= i < d.len() ==> #[trigger] d[i] == parts[i]);
        the_last_part_names_a_path(d, name, k);
    }
}

} // verus!
