//! Regular expressions: the matches of a pattern in a text, and what lies between them.
use vstd::prelude::*;
use vstd::string::*;

use crate::reader::{ACTIVE_TAGS, EVENT_ATTRIBUTES};
use crate::text::{clone_opt, join, opt_str, strs};

verus! {

/// The matches of `pattern` in `text`, from left to right and without overlap: for each
/// match its groups, the whole match first. `None` where the pattern does not compile.
pub uninterp spec fn regex_matches(pattern: Seq<char>, text: Seq<char>) -> Option<
    Seq<Seq<Option<Seq<char>>>>,
>;

/// The parts of `text` before, between and after the matches of `pattern`. `None` where
/// the pattern does not compile.
pub uninterp spec fn regex_gaps(pattern: Seq<char>, text: Seq<char>) -> Option<Seq<Seq<char>>>;

/// The characters of the groups of one match.
pub open spec fn groups_view(m: Seq<Option<String>>) -> Seq<Option<Seq<char>>> {
    m.map_values(|o: Option<String>| opt_str(o))
}

/// The characters of the groups of each match.
pub open spec fn matches_view(v: Seq<Vec<Option<String>>>) -> Seq<Seq<Option<Seq<char>>>> {
    v.map_values(|m: Vec<Option<String>>| groups_view(m@))
}

/// Whether `pattern` is one of those that take out what a page could do. Each branch of them
/// begins with a character that it has to match: an angle bracket, or white space.
pub open spec fn takes_text(pattern: Seq<char>) -> bool {
    pattern == ACTIVE_TAGS@ || pattern == EVENT_ATTRIBUTES@
}

/// `Regex::captures_iter`: the groups of all matches. Which texts match is left to the
/// name. The two patterns that take out what a page could do compile, and a match of one of
/// them is not empty.
#[verifier::external_body]
pub(crate) fn captures_all(pattern: &str, text: &str) -> (r: Option<Vec<Vec<Option<String>>>>)
    ensures
        match r {
            Some(v) => regex_matches(pattern@, text@) == Some(matches_view(v@)),
            None => regex_matches(pattern@, text@) is None,
        },
        takes_text(pattern@) ==> r is Some,
        takes_text(pattern@) && r is Some ==> forall|i: int|
            0 <= i < r->0@.len() ==> whole(groups_view((#[trigger] r->0@[i])@)).len() > 0,
{
    let re = regex::Regex::new(pattern).ok()?;
    let all = re.captures_iter(text).map(
        |c| c.iter().map(|g| g.map(|m| m.as_str().to_string())).collect(),
    );
    Some(all.collect())
}

/// `Regex::split`: the parts of the text that no match covers, one more than there are
/// matches. The parts and the matches in turn make up the text.
#[verifier::external_body]
pub(crate) fn gaps_between(pattern: &str, text: &str) -> (r: Option<Vec<String>>)
    ensures
        match r {
            Some(v) => {
                &&& regex_gaps(pattern@, text@) == Some(strs(v@))
                &&& regex_matches(pattern@, text@) is Some
                &&& v@.len() == regex_matches(pattern@, text@)->0.len() + 1
                &&& splice(strs(v@), wholes(regex_matches(pattern@, text@)->0)) == text@
            },
            None => regex_gaps(pattern@, text@) is None && regex_matches(pattern@, text@) is None,
        },
{
    let re = regex::Regex::new(pattern).ok()?;
    Some(re.split(text).map(|g| g.to_string()).collect())
}

/// The text of a match: its group 0.
pub open spec fn whole(m: Seq<Option<Seq<char>>>) -> Seq<char> {
    if m.len() > 0 && m[0] is Some {
        m[0]->0
    } else {
        Seq::empty()
    }
}

/// The texts of the matches.
pub open spec fn wholes(ms: Seq<Seq<Option<Seq<char>>>>) -> Seq<Seq<char>> {
    ms.map_values(|m: Seq<Option<Seq<char>>>| whole(m))
}

/// Group `k` of a match.
pub open spec fn group(m: Seq<Option<Seq<char>>>, k: int) -> Option<Seq<char>> {
    if 0 <= k < m.len() {
        m[k]
    } else {
        None
    }
}

/// Group 1 of the first match of `pattern` in `text`.
pub open spec fn first_group(pattern: Seq<char>, text: Seq<char>) -> Option<Seq<char>> {
    match regex_matches(pattern, text) {
        Some(ms) => if ms.len() > 0 {
            group(ms[0], 1)
        } else {
            None
        },
        None => None,
    }
}

/// Whether `pattern` matches somewhere in `text`.
pub open spec fn matches_in(pattern: Seq<char>, text: Seq<char>) -> bool {
    match regex_matches(pattern, text) {
        Some(ms) => ms.len() > 0,
        None => false,
    }
}

/// A copy of group `k` of a match.
pub fn group_of(m: &Vec<Option<String>>, k: usize) -> (r: Option<String>)
    ensures
        opt_str(r) == group(groups_view(m@), k as int),
{
    if k < m.len() {
        assert(groups_view(m@)[k as int] == opt_str(m@[k as int]));
        clone_opt(&m[k])
    } else {
        None
    }
}

/// A copy of the text of a match.
pub fn whole_of(m: &Vec<Option<String>>) -> (r: String)
    ensures
        r@ == whole(groups_view(m@)),
{
    match group_of(m, 0) {
        Some(s) => s,
        None => String::new(),
    }
}

/// Group 1 of the first match of `pattern` in `text`.
pub fn first_match(pattern: &str, text: &str) -> (r: Option<String>)
    ensures
        opt_str(r) == first_group(pattern@, text@),
{
    match captures_all(pattern, text) {
        Some(ms) => {
            if ms.len() > 0 {
                assert(matches_view(ms@)[0] == groups_view(ms@[0]@));
                group_of(&ms[0], 1)
            } else {
                None
            }
        },
        None => None,
    }
}

/// Whether `pattern` matches somewhere in `text`.
pub fn is_match(pattern: &str, text: &str) -> (r: bool)
    ensures
        r == matches_in(pattern@, text@),
        takes_text(pattern@) ==> regex_matches(pattern@, text@) is Some,
        takes_text(pattern@) && r ==> whole(regex_matches(pattern@, text@)->0[0]).len() > 0,
{
    match captures_all(pattern, text) {
        Some(ms) => {
            if ms.len() > 0 {
                assert(matches_view(ms@)[0] == groups_view(ms@[0]@));
                true
            } else {
                false
            }
        },
        None => false,
    }
}

/// The gaps with `fill[i]` behind gap `i`.
pub open spec fn splice(gaps: Seq<Seq<char>>, fill: Seq<Seq<char>>) -> Seq<char>
    decreases gaps.len(),
{
    if gaps.len() == 0 {
        Seq::empty()
    } else {
        let k = gaps.len() - 1;
        splice(gaps.drop_last(), fill) + gaps.last() + (if k < fill.len() {
            fill[k as int]
        } else {
            Seq::empty()
        })
    }
}

/// What is put between the gaps makes the text longer.
pub proof fn filling_adds(gaps: Seq<Seq<char>>, fill: Seq<Seq<char>>)
    ensures
        splice(gaps, Seq::empty()).len() <= splice(gaps, fill).len(),
        gaps.len() > 0 && fill.len() > 0 && fill[0].len() > 0 ==> splice(gaps, Seq::empty()).len()
            < splice(gaps, fill).len(),
    decreases gaps.len(),
{
    if gaps.len() > 0 {
        filling_adds(gaps.drop_last(), fill);
    }
}

/// The gaps with `fill[i]` behind gap `i`.
pub fn spliced(gaps: &Vec<String>, fill: &Vec<String>) -> (r: String)
    ensures
        r@ == splice(strs(gaps@), strs(fill@)),
{
    let mut r = String::new();
    let mut i: usize = 0;
    assert(strs(gaps@).take(0) =~= Seq::<Seq<char>>::empty());
    while i < gaps.len()
        invariant
            i <= gaps@.len(),
            r@ == splice(strs(gaps@).take(i as int), strs(fill@)),
        decreases gaps@.len() - i,
    {
        assert(strs(gaps@).take(i + 1).drop_last() =~= strs(gaps@).take(i as int));
        assert(strs(gaps@).take(i + 1).last() == gaps@[i as int]@);
        r.append(&gaps[i]);
        if i < fill.len() {
            assert(strs(fill@)[i as int] == fill@[i as int]@);
            r.append(&fill[i]);
        }
        i += 1;
        assert(r@ =~= splice(strs(gaps@).take(i as int), strs(fill@)));
    }
    assert(strs(gaps@).take(gaps@.len() as int) =~= strs(gaps@));
    r
}

/// What is put between the gaps stands in their places: with one separator for all it makes the
/// gaps joined by it.
pub proof fn gaps_are_filled_in_order(gaps: Seq<Seq<char>>, fill: Seq<Seq<char>>, sep: Seq<char>)
    requires
        gaps.len() == fill.len() + 1,
    ensures
        (forall|i: int| 0 <= i < fill.len() ==> #[trigger] fill[i] == sep) ==> splice(gaps, fill)
            == join(gaps, sep),
        fill.len() > 0 ==> splice(gaps, fill) == splice(gaps.drop_last(), fill.drop_last())
            + fill.last() + gaps.last(),
    decreases gaps.len(),
{
    let n = fill.len() as int;
    if n == 0 {
        assert(splice(gaps.drop_last(), fill) =~= Seq::<char>::empty());
        assert(splice(gaps, fill) =~= gaps[0]);
    } else {
        let g = gaps.drop_last();
        let f = fill.drop_last();
        gaps_are_filled_in_order(g, f, sep);
        only_the_first_count(g.drop_last(), fill, f);
        assert(g.drop_last().len() == n - 1);
        assert(splice(g, fill) =~= splice(g, f) + fill[n - 1]);
        assert(splice(gaps, fill) =~= splice(g, f) + fill.last() + gaps.last());
        if forall|i: int| 0 <= i < fill.len() ==> #[trigger] fill[i] == sep {
            assert forall|i: int| 0 <= i < f.len() implies #[trigger] f[i] == sep by {
                assert(fill[i] == sep);
            }
            assert(fill[n - 1] == sep);
        }
    }
}

proof fn only_the_first_count(gaps: Seq<Seq<char>>, a: Seq<Seq<char>>, b: Seq<Seq<char>>)
    requires
        gaps.len() <= a.len(),
        gaps.len() <= b.len(),
        forall|i: int| 0 <= i < gaps.len() ==> #[trigger] a[i] == b[i],
    ensures
        splice(gaps, a) == splice(gaps, b),
    decreases gaps.len(),
{
    if gaps.len() > 0 {
        only_the_first_count(gaps.drop_last(), a, b);
    }
}

} // verus!
