//! Characters, trimming, splitting, joining and decimal numbers.
//!
//! Every string is modelled by its sequence of characters.
use vstd::prelude::*;
use vstd::string::*;

verus! {

/// `String::push` appends one character.
pub assume_specification[ String::push ](s: &mut String, c: char)
    ensures
        final(s)@ == old(s)@.push(c),
;

/// What `str::to_lowercase` gives: every character mapped by the Unicode lower case
/// tables.
pub uninterp spec fn lowercase(s: Seq<char>) -> Seq<char>;

/// `str::to_lowercase`. Nothing is claimed of the case tables: the result is named.
#[verifier::external_body]
pub(crate) fn to_lower(s: &str) -> (r: String)
    ensures
        r@ == lowercase(s@),
{
    s.to_lowercase()
}

/// What `String::from_utf8_lossy` gives for the bytes `b`.
pub uninterp spec fn utf8_lossy(b: Seq<u8>) -> Seq<char>;

/// `String::from_utf8_lossy`: the text of `b`, with replacement characters where the
/// bytes are no UTF-8. Bytes that are valid UTF-8 are decoded without change.
#[verifier::external_body]
pub(crate) fn decode_lossy(b: &Vec<u8>) -> (r: String)
    ensures
        r@ == utf8_lossy(b@),
        vstd::utf8::valid_utf8(b@) ==> vstd::utf8::encode_utf8(r@) == b@,
{
    String::from_utf8_lossy(b).into_owned()
}

/// The Unicode `White_Space` property.
pub open spec fn is_white(c: char) -> bool {
    ||| '\u{9}' <= c <= '\u{d}'
    ||| c == '\u{20}'
    ||| c == '\u{85}'
    ||| c == '\u{a0}'
    ||| c == '\u{1680}'
    ||| '\u{2000}' <= c <= '\u{200a}'
    ||| '\u{2028}' <= c <= '\u{2029}'
    ||| c == '\u{202f}'
    ||| c == '\u{205f}'
    ||| c == '\u{3000}'
}

/// Whether `c` has the Unicode `White_Space` property.
pub fn white(c: char) -> (r: bool)
    ensures
        r == is_white(c),
{
    ('\u{9}' <= c && c <= '\u{d}') || c == '\u{20}' || c == '\u{85}' || c == '\u{a0}' || c
        == '\u{1680}' || ('\u{2000}' <= c && c <= '\u{200a}') || ('\u{2028}' <= c && c
        <= '\u{2029}') || c == '\u{202f}' || c == '\u{205f}' || c == '\u{3000}'
}

/// The characters of `s`.
pub fn chars_of(s: &str) -> (v: Vec<char>)
    ensures
        v@ == s@,
{
    let mut v: Vec<char> = Vec::new();
    for c in it: s.chars()
        invariant
            it.seq() == s@,
            v@ == it.seq().take(it.index()),
    {
        v.push(c);
        assert(v@ =~= it.seq().take(it.index() + 1));
    }
    assert(v@ =~= s@);
    v
}

/// The string of the characters `from..to` of `v`.
pub fn string_of_range(v: &Vec<char>, from: usize, to: usize) -> (s: String)
    requires
        from <= to <= v@.len(),
    ensures
        s@ == v@.subrange(from as int, to as int),
{
    let mut s = String::new();
    let mut i: usize = from;
    while i < to
        invariant
            from <= i <= to <= v@.len(),
            s@ == v@.subrange(from as int, i as int),
        decreases to - i,
    {
        s.push(v[i]);
        i += 1;
        assert(s@ =~= v@.subrange(from as int, i as int));
    }
    s
}

/// The string of the characters of `v`.
pub fn string_of(v: &Vec<char>) -> (s: String)
    ensures
        s@ == v@,
{
    let s = string_of_range(v, 0, v.len());
    assert(v@.subrange(0, v@.len() as int) =~= v@);
    s
}

/// Whether two strings hold the same characters.
pub fn same(a: &str, b: &str) -> (r: bool)
    ensures
        r == (a@ == b@),
{
    let x = chars_of(a);
    let y = chars_of(b);
    if x.len() != y.len() {
        return false;
    }
    let mut i: usize = 0;
    while i < x.len()
        invariant
            i <= x@.len(),
            x@.len() == y@.len(),
            x@ == a@,
            y@ == b@,
            forall|j: int| 0 <= j < i ==> x@[j] == y@[j],
        decreases x@.len() - i,
    {
        if x[i] != y[i] {
            assert(a@[i as int] != b@[i as int]);
            return false;
        }
        i += 1;
    }
    assert(a@ =~= b@);
    true
}

// ---- trimming ----

/// `s` without its leading white space.
pub open spec fn trim_start(s: Seq<char>) -> Seq<char>
    decreases s.len(),
{
    if s.len() > 0 && is_white(s[0]) {
        trim_start(s.drop_first())
    } else {
        s
    }
}

/// `s` without its trailing white space.
pub open spec fn trim_end(s: Seq<char>) -> Seq<char>
    decreases s.len(),
{
    if s.len() > 0 && is_white(s.last()) {
        trim_end(s.drop_last())
    } else {
        s
    }
}

/// `s` without the white space at both ends.
pub open spec fn trim(s: Seq<char>) -> Seq<char> {
    trim_end(trim_start(s))
}

/// The range of `v` that is left after trimming.
pub fn trim_range(v: &Vec<char>) -> (r: (usize, usize))
    ensures
        r.0 <= r.1 <= v@.len(),
        v@.subrange(r.0 as int, r.1 as int) == trim(v@),
{
    let mut lo: usize = 0;
    assert(v@.skip(0) =~= v@);
    while lo < v.len() && white(v[lo])
        invariant
            lo <= v@.len(),
            trim_start(v@) == trim_start(v@.skip(lo as int)),
        decreases v@.len() - lo,
    {
        assert(v@.skip(lo as int).drop_first() =~= v@.skip(lo + 1));
        lo += 1;
    }
    assert(trim_start(v@) == v@.skip(lo as int));
    let mut hi: usize = v.len();
    assert(v@.skip(lo as int) =~= v@.subrange(lo as int, hi as int));
    while hi > lo && white(v[hi - 1])
        invariant
            lo <= hi <= v@.len(),
            trim(v@) == trim_end(v@.subrange(lo as int, hi as int)),
        decreases hi,
    {
        assert(v@.subrange(lo as int, hi as int).drop_last() =~= v@.subrange(
            lo as int,
            hi - 1,
        ));
        hi -= 1;
    }
    (lo, hi)
}

/// `s` without the white space at both ends.
pub fn trimmed(s: &str) -> (r: String)
    ensures
        r@ == trim(s@),
{
    let v = chars_of(s);
    let (lo, hi) = trim_range(&v);
    string_of_range(&v, lo, hi)
}

/// Whether nothing but white space is in `s`.
pub open spec fn is_blank(s: Seq<char>) -> bool {
    trim(s).len() == 0
}

/// Whether nothing but white space is in `s`.
pub fn blank(s: &str) -> (r: bool)
    ensures
        r == is_blank(s@),
{
    let v = chars_of(s);
    let (lo, hi) = trim_range(&v);
    lo == hi
}

/// Trimming keeps no white space at either end, and trimming again changes nothing.
pub proof fn trim_is_tight(s: Seq<char>)
    ensures
        trim(s).len() > 0 ==> !is_white(trim(s)[0]) && !is_white(trim(s).last()),
        trim(trim(s)) == trim(s),
{
    trim_start_tight(s);
    trim_end_tight(trim_start(s));
    trim_end_prefix(trim_start(s));
}

proof fn trim_start_tight(s: Seq<char>)
    ensures
        trim_start(s).len() > 0 ==> !is_white(trim_start(s)[0]),
    decreases s.len(),
{
    if s.len() > 0 && is_white(s[0]) {
        trim_start_tight(s.drop_first());
    }
}

proof fn trim_end_tight(s: Seq<char>)
    ensures
        trim_end(s).len() > 0 ==> !is_white(trim_end(s).last()),
    decreases s.len(),
{
    if s.len() > 0 && is_white(s.last()) {
        trim_end_tight(s.drop_last());
    }
}

proof fn trim_end_prefix(s: Seq<char>)
    ensures
        trim_end(s).len() <= s.len(),
        trim_end(s).is_prefix_of(s),
    decreases s.len(),
{
    if s.len() > 0 && is_white(s.last()) {
        trim_end_prefix(s.drop_last());
    }
}

/// A string that trims to nothing holds white space alone, and the other way round.
pub proof fn blank_iff_all_white(s: Seq<char>)
    ensures
        is_blank(s) <==> (forall|i: int| 0 <= i < s.len() ==> is_white(s[i])),
    decreases s.len(),
{
    if s.len() > 0 && is_white(s[0]) {
        blank_iff_all_white(s.drop_first());
        assert forall|i: int| is_blank(s) && 0 <= i < s.len() implies is_white(s[i]) by {
            if i > 0 {
                assert(s.drop_first()[i - 1] == s[i]);
            }
        }
        if forall|i: int| 0 <= i < s.len() ==> is_white(s[i]) {
            assert forall|i: int| 0 <= i < s.drop_first().len() implies is_white(
                s.drop_first()[i],
            ) by {
                assert(s.drop_first()[i] == s[i + 1]);
            }
        }
    } else if s.len() > 0 {
        trim_end_keeps_first(s);
    }
}

proof fn trim_end_keeps_first(s: Seq<char>)
    requires
        s.len() > 0,
        !is_white(s[0]),
    ensures
        trim_end(s).len() > 0,
    decreases s.len(),
{
    if is_white(s.last()) {
        trim_end_keeps_first(s.drop_last());
    }
}

// ---- sequences of strings ----

/// The characters of each string.
pub open spec fn strs(v: Seq<String>) -> Seq<Seq<char>> {
    v.map_values(|s: String| s@)
}

/// The characters of an optional string.
pub open spec fn opt_str(o: Option<String>) -> Option<Seq<char>> {
    match o {
        Some(s) => Some(s@),
        None => None,
    }
}

/// A copy of an optional string.
pub fn clone_opt(o: &Option<String>) -> (r: Option<String>)
    ensures
        r == *o,
{
    match o {
        Some(s) => Some(s.clone()),
        None => None,
    }
}

/// A copy of a list of strings.
pub fn clone_strings(v: &Vec<String>) -> (r: Vec<String>)
    ensures
        r@ == v@,
{
    let mut r: Vec<String> = Vec::new();
    let mut i: usize = 0;
    while i < v.len()
        invariant
            i <= v@.len(),
            r@ == v@.take(i as int),
        decreases v@.len() - i,
    {
        r.push(v[i].clone());
        i += 1;
        assert(r@ =~= v@.take(i as int));
    }
    assert(r@ =~= v@);
    r
}

/// Whether some string of `v` holds the characters of `s`.
pub fn has_string(v: &Vec<String>, s: &str) -> (r: bool)
    ensures
        r == strs(v@).contains(s@),
{
    let mut i: usize = 0;
    while i < v.len()
        invariant
            i <= v@.len(),
            forall|j: int| 0 <= j < i ==> v@[j]@ != s@,
        decreases v@.len() - i,
    {
        if same(&v[i], s) {
            assert(strs(v@)[i as int] == s@);
            return true;
        }
        i += 1;
    }
    assert forall|j: int| 0 <= j < strs(v@).len() implies strs(v@)[j] != s@ by {
        assert(strs(v@)[j] == v@[j]@);
    }
    false
}

/// Pushing a string pushes its characters.
pub proof fn strs_push(v: Seq<String>, s: String)
    ensures
        strs(v.push(s)) == strs(v).push(s@),
{
    assert(strs(v.push(s)) =~= strs(v).push(s@));
}

// ---- splitting and joining ----

/// The pieces of `s` between the characters that `cut` accepts.
pub open spec fn split_by(s: Seq<char>, cut: spec_fn(char) -> bool) -> Seq<Seq<char>>
    decreases s.len(),
{
    if s.len() == 0 {
        seq![Seq::<char>::empty()]
    } else {
        let p = split_by(s.drop_last(), cut);
        if cut(s.last()) {
            p.push(Seq::<char>::empty())
        } else {
            p.update(p.len() - 1, p.last().push(s.last()))
        }
    }
}

/// Splitting gives at least one piece.
pub proof fn split_nonempty(s: Seq<char>, cut: spec_fn(char) -> bool)
    ensures
        split_by(s, cut).len() >= 1,
    decreases s.len(),
{
    if s.len() > 0 {
        split_nonempty(s.drop_last(), cut);
    }
}

/// No piece holds a character that cuts.
pub proof fn split_cuts(s: Seq<char>, cut: spec_fn(char) -> bool, k: int)
    requires
        0 <= k < split_by(s, cut).len(),
    ensures
        forall|i: int| 0 <= i < split_by(s, cut)[k].len() ==> !cut(#[trigger] split_by(s, cut)[k][i]),
    decreases s.len(),
{
    if s.len() > 0 {
        let p = split_by(s.drop_last(), cut);
        split_nonempty(s.drop_last(), cut);
        if cut(s.last()) {
            if k < p.len() {
                split_cuts(s.drop_last(), cut, k);
            }
        } else {
            split_cuts(s.drop_last(), cut, k);
            if k == p.len() - 1 {
                assert forall|i: int| 0 <= i < split_by(s, cut)[k].len() implies !cut(
                    #[trigger] split_by(s, cut)[k][i],
                ) by {
                    if i < p[k].len() {
                        assert(split_by(s, cut)[k][i] == p[k][i]);
                    }
                }
            }
        }
    }
}

/// The pieces of `s` between the characters of `seps`.
pub open spec fn split_on(s: Seq<char>, seps: Seq<char>) -> Seq<Seq<char>> {
    split_by(s, |c: char| seps.contains(c))
}

/// Whether `c` is one of `seps`.
pub fn one_of(c: char, seps: &Vec<char>) -> (r: bool)
    ensures
        r == seps@.contains(c),
{
    let mut i: usize = 0;
    while i < seps.len()
        invariant
            i <= seps@.len(),
            forall|j: int| 0 <= j < i ==> seps@[j] != c,
        decreases seps@.len() - i,
    {
        if seps[i] == c {
            return true;
        }
        i += 1;
    }
    false
}

/// The pieces of `s` between the characters of `seps`.
pub fn split(s: &str, seps: &Vec<char>) -> (r: Vec<String>)
    ensures
        strs(r@) == split_on(s@, seps@),
{
    let v = chars_of(s);
    let ghost cut = |c: char| seps@.contains(c);
    let mut done: Vec<String> = Vec::new();
    let mut cur = String::new();
    let mut i: usize = 0;
    assert(strs(done@).push(cur@) =~= split_by(v@.take(0), cut));
    while i < v.len()
        invariant
            i <= v@.len(),
            cut == |c: char| seps@.contains(c),
            strs(done@).push(cur@) == split_by(v@.take(i as int), cut),
        decreases v@.len() - i,
    {
        let c = v[i];
        let ghost before = strs(done@).push(cur@);
        assert(v@.take(i + 1).drop_last() =~= v@.take(i as int));
        if one_of(c, seps) {
            proof {
                strs_push(done@, cur);
            }
            done.push(cur);
            cur = String::new();
            assert(strs(done@).push(cur@) =~= before.push(Seq::<char>::empty()));
        } else {
            cur.push(c);
            assert(strs(done@).push(cur@) =~= before.update(
                before.len() - 1,
                before.last().push(c),
            ));
        }
        i += 1;
    }
    assert(v@.take(v@.len() as int) =~= s@);
    proof {
        strs_push(done@, cur);
    }
    done.push(cur);
    done
}

/// The pieces of `s` that white space separates.
pub open spec fn words(s: Seq<char>) -> Seq<Seq<char>> {
    split_by(s, |c: char| is_white(c)).filter(|w: Seq<char>| w.len() > 0)
}

/// The pieces of `s` that white space separates.
pub fn split_words(s: &str) -> (r: Vec<String>)
    ensures
        strs(r@) == words(s@),
{
    let v = chars_of(s);
    let ghost cut = |c: char| is_white(c);
    let ghost full = |w: Seq<char>| w.len() > 0;
    let ghost mut done: Seq<Seq<char>> = Seq::empty();
    let mut out: Vec<String> = Vec::new();
    let mut cur = String::new();
    let mut i: usize = 0;
    assert(done.push(cur@) =~= split_by(v@.take(0), cut));
    reveal(Seq::filter);
    assert(strs(out@) =~= done.filter(full));
    while i < v.len()
        invariant
            i <= v@.len(),
            cut == |c: char| is_white(c),
            full == |w: Seq<char>| w.len() > 0,
            done.push(cur@) == split_by(v@.take(i as int), cut),
            strs(out@) == done.filter(full),
        decreases v@.len() - i,
    {
        let c = v[i];
        let ghost before = done.push(cur@);
        assert(v@.take(i + 1).drop_last() =~= v@.take(i as int));
        if white(c) {
            proof {
                strs_push(out@, cur);
                done.lemma_filter_push(cur@, full);
                done = before;
            }
            if !cur.as_str().is_empty() {
                out.push(cur);
            }
            cur = String::new();
            assert(done.push(cur@) =~= before.push(Seq::<char>::empty()));
        } else {
            cur.push(c);
            assert(done.push(cur@) =~= before.update(before.len() - 1, before.last().push(c)));
        }
        i += 1;
    }
    assert(v@.take(v@.len() as int) =~= s@);
    proof {
        strs_push(out@, cur);
        done.lemma_filter_push(cur@, full);
    }
    if !cur.as_str().is_empty() {
        out.push(cur);
    }
    out
}

/// The strings of `parts` with `sep` between them.
pub open spec fn join(parts: Seq<Seq<char>>, sep: Seq<char>) -> Seq<char>
    decreases parts.len(),
{
    if parts.len() == 0 {
        Seq::empty()
    } else if parts.len() == 1 {
        parts[0]
    } else {
        join(parts.drop_last(), sep) + sep + parts.last()
    }
}

/// The strings of `parts` with `sep` between them.
pub fn joined(parts: &Vec<String>, sep: &str) -> (r: String)
    ensures
        r@ == join(strs(parts@), sep@),
{
    let mut r = String::new();
    let mut i: usize = 0;
    assert(strs(parts@).take(0) =~= Seq::<Seq<char>>::empty());
    while i < parts.len()
        invariant
            i <= parts@.len(),
            r@ == join(strs(parts@).take(i as int), sep@),
        decreases parts@.len() - i,
    {
        let ghost all = strs(parts@);
        assert(all.take(i + 1).drop_last() =~= all.take(i as int));
        assert(all.take(i + 1).last() == parts@[i as int]@);
        if i > 0 {
            r.append(sep);
        }
        r.append(&parts[i]);
        i += 1;
        if i == 1 {
            assert(r@ =~= parts@[0]@);
        }
    }
    assert(strs(parts@).take(parts@.len() as int) =~= strs(parts@));
    r
}

// ---- searching ----

/// Whether `p` stands in `s` at `i`.
pub open spec fn occurs_at(s: Seq<char>, p: Seq<char>, i: int) -> bool {
    0 <= i && i + p.len() <= s.len() && s.subrange(i, i + p.len()) == p
}

/// The first place at or after `i` where `p` stands in `s`.
pub open spec fn find_from(s: Seq<char>, p: Seq<char>, i: int) -> Option<int>
    decreases s.len() + 1 - i,
{
    if i + p.len() > s.len() {
        None
    } else if occurs_at(s, p, i) {
        Some(i)
    } else {
        find_from(s, p, i + 1)
    }
}

/// The first place where `p` stands in `s`.
pub open spec fn find(s: Seq<char>, p: Seq<char>) -> Option<int> {
    find_from(s, p, 0)
}

/// Whether `p` stands somewhere in `s`.
pub open spec fn has_part(s: Seq<char>, p: Seq<char>) -> bool {
    exists|i: int| occurs_at(s, p, i)
}

/// The search finds the first occurrence, and finds one exactly when there is one.
pub proof fn find_from_is_first(s: Seq<char>, p: Seq<char>, i: int)
    requires
        0 <= i,
    ensures
        match find_from(s, p, i) {
            Some(k) => i <= k && occurs_at(s, p, k) && (forall|j: int|
                i <= j < k ==> !occurs_at(s, p, j)),
            None => forall|j: int| i <= j ==> !occurs_at(s, p, j),
        },
    decreases s.len() + 1 - i,
{
    if i + p.len() <= s.len() && !occurs_at(s, p, i) {
        find_from_is_first(s, p, i + 1);
    }
}

/// Whether `p` stands in `v` at `i`.
pub fn stands_at(v: &Vec<char>, p: &Vec<char>, i: usize) -> (r: bool)
    ensures
        r == occurs_at(v@, p@, i as int),
{
    if p.len() > v.len() || i > v.len() - p.len() {
        return false;
    }
    let n: usize = v.len();
    let mut j: usize = 0;
    while j < p.len()
        invariant
            j <= p@.len(),
            i + p@.len() <= v@.len(),
            n == v@.len(),
            forall|k: int| 0 <= k < j ==> v@[i + k] == p@[k],
        decreases p@.len() - j,
    {
        if v[i + j] != p[j] {
            assert(v@.subrange(i as int, i + p@.len())[j as int] != p@[j as int]);
            return false;
        }
        j += 1;
    }
    assert(v@.subrange(i as int, i + p@.len()) =~= p@);
    true
}

/// The first place at or after `from` where `p` stands in `v`.
pub fn find_chars(v: &Vec<char>, p: &Vec<char>, from: usize) -> (r: Option<usize>)
    ensures
        match r {
            Some(k) => find_from(v@, p@, from as int) == Some(k as int),
            None => find_from(v@, p@, from as int) is None,
        },
{
    if p.len() > v.len() {
        return None;
    }
    let last: usize = v.len() - p.len();
    if from > last {
        return None;
    }
    let mut i: usize = from;
    while i < last
        invariant
            from <= i <= last,
            last == v@.len() - p@.len(),
            find_from(v@, p@, from as int) == find_from(v@, p@, i as int),
        decreases last - i,
    {
        if stands_at(v, p, i) {
            return Some(i);
        }
        i += 1;
    }
    if stands_at(v, p, i) {
        Some(i)
    } else {
        assert(find_from(v@, p@, i + 1) is None);
        None
    }
}

/// Whether `p` stands somewhere in `s`.
pub fn contains(s: &str, p: &str) -> (r: bool)
    ensures
        r == has_part(s@, p@),
{
    let v = chars_of(s);
    let q = chars_of(p);
    proof {
        find_from_is_first(s@, p@, 0);
    }
    match find_chars(&v, &q, 0) {
        Some(_) => true,
        None => {
            assert(forall|j: int| occurs_at(s@, p@, j) ==> 0 <= j);
            false
        },
    }
}

/// Whether `s` begins with `p`.
pub fn starts_with(s: &str, p: &str) -> (r: bool)
    ensures
        r == p@.is_prefix_of(s@),
{
    let v = chars_of(s);
    let q = chars_of(p);
    let r = stands_at(&v, &q, 0);
    if q.len() <= v.len() {
        assert(v@.subrange(0, q@.len() as int) =~= v@.take(q@.len() as int));
    }
    r
}

/// Whether `s` ends with `p`.
pub fn ends_with(s: &str, p: &str) -> (r: bool)
    ensures
        r == p@.is_suffix_of(s@),
{
    let v = chars_of(s);
    let q = chars_of(p);
    if q.len() > v.len() {
        return false;
    }
    stands_at(&v, &q, v.len() - q.len())
}

/// Whether the character `c` is in `s`.
pub fn has_char(s: &str, c: char) -> (r: bool)
    ensures
        r == s@.contains(c),
{
    let v = chars_of(s);
    one_of(c, &v)
}

// ---- decimal numbers ----

/// The character of a decimal digit.
pub open spec fn digit(d: nat) -> char {
    (48 + d) as char
}

/// The decimal notation of a number.
pub open spec fn dec(n: nat) -> Seq<char>
    decreases n,
{
    if n < 10 {
        seq![digit(n)]
    } else {
        dec(n / 10).push(digit(n % 10))
    }
}

/// The decimal notation of an integer.
pub open spec fn dec_int(n: int) -> Seq<char> {
    if n < 0 {
        seq!['-'] + dec((-n) as nat)
    } else {
        dec(n as nat)
    }
}

fn push_dec(s: &mut String, n: u128)
    ensures
        final(s)@ == old(s)@ + dec(n as nat),
    decreases n,
{
    if n >= 10 {
        push_dec(s, n / 10);
    }
    let d: u8 = 48 + (n % 10) as u8;
    s.push(d as char);
    proof {
        assert(s@ =~= old(s)@ + dec(n as nat));
    }
}

/// The decimal notation of a number.
pub fn dec_u64(n: u64) -> (r: String)
    ensures
        r@ == dec(n as nat),
{
    let mut s = String::new();
    push_dec(&mut s, n as u128);
    assert(s@ =~= dec(n as nat));
    s
}

/// The decimal notation of a number of 128 bits.
pub fn dec_u128(n: u128) -> (r: String)
    ensures
        r@ == dec(n as nat),
{
    let mut s = String::new();
    push_dec(&mut s, n);
    assert(s@ =~= dec(n as nat));
    s
}

/// The decimal notation of an integer.
pub fn dec_i64(n: i64) -> (r: String)
    ensures
        r@ == dec_int(n as int),
{
    let mut s = String::new();
    if n < 0 {
        s.push('-');
        let m: u128 = (-(n as i128)) as u128;
        push_dec(&mut s, m);
        assert(s@ =~= dec_int(n as int));
    } else {
        push_dec(&mut s, n as u128);
        assert(s@ =~= dec_int(n as int));
    }
    s
}

/// Whether `c` is a decimal digit.
pub open spec fn is_digit(c: char) -> bool {
    '0' <= c <= '9'
}

/// The number that a sequence of digits denotes.
pub open spec fn digits_value(s: Seq<char>) -> nat
    decreases s.len(),
{
    if s.len() == 0 {
        0
    } else {
        (digits_value(s.drop_last()) * 10 + (s.last() as int - 48)) as nat
    }
}

/// The number that `s` denotes, where `s` is one or more digits.
pub open spec fn parse_digits(s: Seq<char>) -> Option<nat> {
    if s.len() > 0 && (forall|i: int| 0 <= i < s.len() ==> is_digit(s[i])) {
        Some(digits_value(s))
    } else {
        None
    }
}

/// The integer that `s` denotes: an optional sign and one or more digits.
pub open spec fn parse_int(s: Seq<char>) -> Option<int> {
    if s.len() > 0 && s[0] == '-' {
        match parse_digits(s.drop_first()) {
            Some(n) => Some(-(n as int)),
            None => None,
        }
    } else if s.len() > 0 && s[0] == '+' {
        match parse_digits(s.drop_first()) {
            Some(n) => Some(n as int),
            None => None,
        }
    } else {
        match parse_digits(s) {
            Some(n) => Some(n as int),
            None => None,
        }
    }
}

/// The value of the digits `v[from..]`: `None` where they are no digits, or the value
/// is above `cap`.
fn parse_range(v: &Vec<char>, from: usize, cap: u64) -> (r: Option<u64>)
    requires
        from <= v@.len(),
    ensures
        match r {
            Some(n) => parse_digits(v@.skip(from as int)) == Some(n as nat) && n <= cap,
            None => match parse_digits(v@.skip(from as int)) {
                Some(m) => m > cap,
                None => true,
            },
        },
{
    let ghost s = v@.skip(from as int);
    if from == v.len() {
        return None;
    }
    let mut acc: u128 = 0;
    let mut i: usize = from;
    let mut over = false;
    while i < v.len()
        invariant
            from <= i <= v@.len(),
            s == v@.skip(from as int),
            forall|j: int| 0 <= j < i - from ==> is_digit(s[j]),
            !over ==> acc == digits_value(s.take(i - from)) && acc <= cap,
            over ==> digits_value(s.take(i - from)) > cap,
        decreases v@.len() - i,
    {
        let c = v[i];
        assert(c == s[i - from]);
        if !('0' <= c && c <= '9') {
            return None;
        }
        assert(s.take(i - from + 1).drop_last() =~= s.take(i - from));
        assert(s.take(i - from + 1).last() == c);
        if !over {
            let d: u128 = (c as u32 - 48) as u128;
            acc = acc * 10 + d;
            if acc > cap as u128 {
                over = true;
            }
        }
        i += 1;
    }
    assert(s.take(s.len() as int) =~= s);
    if over {
        None
    } else {
        Some(acc as u64)
    }
}

/// The integer that `s` denotes, where it fits.
pub fn parse_i64(s: &str) -> (r: Option<i64>)
    ensures
        match r {
            Some(n) => parse_int(s@) == Some(n as int),
            None => match parse_int(s@) {
                Some(m) => m < i64::MIN || m > i64::MAX,
                None => true,
            },
        },
{
    let v = chars_of(s);
    if v.len() > 0 && v[0] == '-' {
        assert(v@.skip(1) =~= s@.drop_first());
        match parse_range(&v, 1, 9223372036854775808) {
            Some(n) => Some((-(n as i128)) as i64),
            None => None,
        }
    } else if v.len() > 0 && v[0] == '+' {
        assert(v@.skip(1) =~= s@.drop_first());
        match parse_range(&v, 1, 9223372036854775807) {
            Some(n) => Some(n as i64),
            None => None,
        }
    } else {
        assert(v@.skip(0) =~= s@);
        match parse_range(&v, 0, 9223372036854775807) {
            Some(n) => Some(n as i64),
            None => None,
        }
    }
}

/// Whether `m` is what an unsigned parse accepts: no minus sign.
pub open spec fn parse_nat(s: Seq<char>) -> Option<nat> {
    if s.len() > 0 && s[0] == '+' {
        parse_digits(s.drop_first())
    } else {
        parse_digits(s)
    }
}

/// The number that `s` denotes, where it fits.
pub fn parse_u64(s: &str) -> (r: Option<u64>)
    ensures
        match r {
            Some(n) => parse_nat(s@) == Some(n as nat),
            None => match parse_nat(s@) {
                Some(m) => m > u64::MAX,
                None => true,
            },
        },
{
    let v = chars_of(s);
    if v.len() > 0 && v[0] == '+' {
        assert(v@.skip(1) =~= s@.drop_first());
        parse_range(&v, 1, u64::MAX)
    } else {
        assert(v@.skip(0) =~= s@);
        parse_range(&v, 0, u64::MAX)
    }
}

// ---- ASCII letters ----

/// `c`, lower case where it is an ASCII letter.
pub open spec fn ascii_lower(c: char) -> char {
    if 'A' <= c <= 'Z' {
        (c as int + 32) as char
    } else {
        c
    }
}

/// `s` with its ASCII letters lower case.
pub open spec fn ascii_lower_all(s: Seq<char>) -> Seq<char> {
    s.map_values(|c: char| ascii_lower(c))
}

/// `c`, lower case where it is an ASCII letter.
pub fn lower(c: char) -> (r: char)
    ensures
        r == ascii_lower(c),
{
    if 'A' <= c && c <= 'Z' {
        let b: u8 = c as u8;
        (b + 32) as char
    } else {
        c
    }
}

/// `s` with its ASCII letters lower case.
pub fn to_ascii_lower(s: &str) -> (r: String)
    ensures
        r@ == ascii_lower_all(s@),
{
    let v = chars_of(s);
    let mut r = String::new();
    let mut i: usize = 0;
    while i < v.len()
        invariant
            i <= v@.len(),
            r@ == ascii_lower_all(v@.take(i as int)),
        decreases v@.len() - i,
    {
        r.push(lower(v[i]));
        i += 1;
        assert(r@ =~= ascii_lower_all(v@.take(i as int)));
    }
    assert(v@.take(v@.len() as int) =~= s@);
    r
}

/// Whether two strings are the same but for the case of ASCII letters.
pub fn same_ignore_case(a: &str, b: &str) -> (r: bool)
    ensures
        r == (ascii_lower_all(a@) == ascii_lower_all(b@)),
{
    let x = to_ascii_lower(a);
    let y = to_ascii_lower(b);
    x == y
}

// ---- stripping a mark ----

/// `s` without the `c` at its start.
pub open spec fn strip_left(s: Seq<char>, c: char) -> Seq<char>
    decreases s.len(),
{
    if s.len() > 0 && s[0] == c {
        strip_left(s.drop_first(), c)
    } else {
        s
    }
}

/// `s` without the `c` at its end.
pub open spec fn strip_right(s: Seq<char>, c: char) -> Seq<char>
    decreases s.len(),
{
    if s.len() > 0 && s.last() == c {
        strip_right(s.drop_last(), c)
    } else {
        s
    }
}

/// `s` without the `c` at both ends.
pub open spec fn strip_ends(s: Seq<char>, c: char) -> Seq<char> {
    strip_right(strip_left(s, c), c)
}

/// `v[lo..]` without the `c` at its end.
fn right_stripped_from(v: &Vec<char>, lo: usize, c: char) -> (r: String)
    requires
        lo <= v@.len(),
    ensures
        r@ == strip_right(v@.skip(lo as int), c),
{
    let mut hi: usize = v.len();
    assert(v@.skip(lo as int) =~= v@.subrange(lo as int, hi as int));
    while hi > lo && v[hi - 1] == c
        invariant
            lo <= hi <= v@.len(),
            strip_right(v@.skip(lo as int), c) == strip_right(
                v@.subrange(lo as int, hi as int),
                c,
            ),
        decreases hi,
    {
        assert(v@.subrange(lo as int, hi as int).drop_last() =~= v@.subrange(lo as int, hi - 1));
        hi -= 1;
    }
    string_of_range(v, lo, hi)
}

/// `s` without the `c` at its end.
pub fn right_stripped(s: &str, c: char) -> (r: String)
    ensures
        r@ == strip_right(s@, c),
{
    let v = chars_of(s);
    assert(v@.skip(0) =~= v@);
    right_stripped_from(&v, 0, c)
}

/// The characters of `v` without the `c` at both ends.
pub fn ends_stripped(v: &Vec<char>, c: char) -> (r: String)
    ensures
        r@ == strip_ends(v@, c),
{
    let mut lo: usize = 0;
    assert(v@.skip(0) =~= v@);
    while lo < v.len() && v[lo] == c
        invariant
            lo <= v@.len(),
            strip_left(v@, c) == strip_left(v@.skip(lo as int), c),
        decreases v@.len() - lo,
    {
        assert(v@.skip(lo as int).drop_first() =~= v@.skip(lo + 1));
        lo += 1;
    }
    right_stripped_from(v, lo, c)
}

/// What is left after stripping stood in the text, and does not begin or end with the
/// mark.
pub proof fn stripped_is_part(s: Seq<char>, c: char)
    ensures
        forall|x: char| strip_ends(s, c).contains(x) ==> s.contains(x),
        strip_ends(s, c).len() > 0 ==> strip_ends(s, c)[0] != c && strip_ends(s, c).last() != c,
{
    left_is_part(s, c);
    right_is_part(strip_left(s, c), c);
}

proof fn left_is_part(s: Seq<char>, c: char)
    ensures
        forall|x: char| strip_left(s, c).contains(x) ==> s.contains(x),
        strip_left(s, c).len() > 0 ==> strip_left(s, c)[0] != c,
    decreases s.len(),
{
    if s.len() > 0 && s[0] == c {
        left_is_part(s.drop_first(), c);
        assert forall|x: char| s.drop_first().contains(x) implies s.contains(x) by {
            let i = choose|i: int| 0 <= i < s.drop_first().len() && s.drop_first()[i] == x;
            assert(s[i + 1] == x);
        }
    }
}

proof fn right_is_part(s: Seq<char>, c: char)
    ensures
        forall|x: char| strip_right(s, c).contains(x) ==> s.contains(x),
        strip_right(s, c).is_prefix_of(s),
        strip_right(s, c).len() > 0 ==> strip_right(s, c).last() != c,
    decreases s.len(),
{
    if s.len() > 0 && s.last() == c {
        right_is_part(s.drop_last(), c);
        assert forall|x: char| s.drop_last().contains(x) implies s.contains(x) by {
            let i = choose|i: int| 0 <= i < s.drop_last().len() && s.drop_last()[i] == x;
            assert(s[i] == x);
        }
    }
}

/// `s` from `i` on, with `w` in place of every `p`, found from left to right.
pub open spec fn replaced_from(s: Seq<char>, p: Seq<char>, w: Seq<char>, i: int) -> Seq<char>
    decreases s.len() - i,
{
    if i < 0 || i >= s.len() {
        Seq::empty()
    } else if p.len() > 0 && occurs_at(s, p, i) {
        w + replaced_from(s, p, w, i + p.len())
    } else {
        seq![s[i]] + replaced_from(s, p, w, i + 1)
    }
}

/// `s` with `w` in place of every `p`; `p` is not empty.
pub open spec fn replace_all(s: Seq<char>, p: Seq<char>, w: Seq<char>) -> Seq<char> {
    replaced_from(s, p, w, 0)
}

/// `s` with `w` in place of every `p`.
pub fn replaced(s: &str, p: &str, w: &str) -> (r: String)
    requires
        p@.len() > 0,
    ensures
        r@ == replace_all(s@, p@, w@),
{
    let v = chars_of(s);
    let part = chars_of(p);
    let mut out = String::new();
    let mut i: usize = 0;
    assert(out@ + replaced_from(s@, p@, w@, 0) =~= replaced_from(s@, p@, w@, 0));
    while i < v.len()
        invariant
            i <= v@.len(),
            v@ == s@,
            part@ == p@,
            p@.len() > 0,
            replace_all(s@, p@, w@) == out@ + replaced_from(s@, p@, w@, i as int),
        decreases v@.len() - i,
    {
        let ghost before = out@;
        if stands_at(&v, &part, i) {
            out = out.concat(w);
            i += part.len();
            assert(out@ + replaced_from(s@, p@, w@, i as int) =~= before + (w@ + replaced_from(
                s@,
                p@,
                w@,
                i as int,
            )));
        } else {
            out.push(v[i]);
            assert(out@ + replaced_from(s@, p@, w@, i + 1) =~= before + (seq![v@[i as int]]
                + replaced_from(s@, p@, w@, i + 1)));
            i += 1;
        }
    }
    assert(out@ + replaced_from(s@, p@, w@, i as int) =~= out@);
    out
}

// ---- what the operations on texts keep ----

proof fn start_is_trimmed(s: Seq<char>) -> (a: int)
    ensures
        0 <= a <= s.len(),
        trim_start(s) == s.skip(a),
        forall|i: int| 0 <= i < a ==> is_white(#[trigger] s[i]),
    decreases s.len(),
{
    if s.len() > 0 && is_white(s[0]) {
        let a = start_is_trimmed(s.drop_first()) + 1;
        assert(s.drop_first().skip(a - 1) =~= s.skip(a));
        assert forall|i: int| 0 <= i < a implies is_white(#[trigger] s[i]) by {
            if i > 0 {
                assert(s.drop_first()[i - 1] == s[i]);
            }
        }
        a
    } else {
        assert(s.skip(0) =~= s);
        0
    }
}

proof fn end_is_trimmed(s: Seq<char>) -> (b: int)
    ensures
        0 <= b <= s.len(),
        trim_end(s) == s.take(b),
        forall|i: int| b <= i < s.len() ==> is_white(#[trigger] s[i]),
    decreases s.len(),
{
    if s.len() > 0 && is_white(s.last()) {
        let b = end_is_trimmed(s.drop_last());
        assert(s.drop_last().take(b) =~= s.take(b));
        assert forall|i: int| b <= i < s.len() implies is_white(#[trigger] s[i]) by {
            if i < s.len() - 1 {
                assert(s.drop_last()[i] == s[i]);
            }
        }
        b
    } else {
        assert(s.take(s.len() as int) =~= s);
        s.len() as int
    }
}

/// Trimming takes nothing but white space, from the ends alone: what is left is one run of the
/// text, from `r.0` up to `r.1`, and all before and behind it is white space.
pub proof fn trimming_takes_white_space_alone(s: Seq<char>) -> (r: (int, int))
    ensures
        0 <= r.0 <= r.1 <= s.len(),
        trim(s) == s.subrange(r.0, r.1),
        forall|i: int| 0 <= i < r.0 ==> is_white(#[trigger] s[i]),
        forall|i: int| r.1 <= i < s.len() ==> is_white(#[trigger] s[i]),
{
    let a = start_is_trimmed(s);
    let t = s.skip(a);
    let b = end_is_trimmed(t);
    assert(t.take(b) =~= s.subrange(a, a + b));
    assert forall|i: int| a + b <= i < s.len() implies is_white(#[trigger] s[i]) by {
        assert(t[i - a] == s[i]);
    }
    (a, a + b)
}

/// The pieces of a text, with a mark between them, are the text with the mark in place of each
/// character that cuts.
pub proof fn pieces_make_the_text(s: Seq<char>, cut: spec_fn(char) -> bool, x: char)
    ensures
        join(split_by(s, cut), seq![x]) == s.map_values(
            |c: char|
                if cut(c) {
                    x
                } else {
                    c
                },
        ),
    decreases s.len(),
{
    let f = |c: char|
        if cut(c) {
            x
        } else {
            c
        };
    if s.len() > 0 {
        let init = s.drop_last();
        let p = split_by(init, cut);
        pieces_make_the_text(init, cut, x);
        split_nonempty(init, cut);
        let q = split_by(s, cut);
        if cut(s.last()) {
            assert(q.drop_last() =~= p);
            assert(join(q, seq![x]) =~= join(p, seq![x]).push(x));
        } else {
            join_grows(p, seq![x], s.last());
        }
        assert(s.map_values(f) =~= init.map_values(f).push(f(s.last())));
    } else {
        assert(join(split_by(s, cut), seq![x]) =~= s.map_values(f));
    }
}

proof fn join_grows(p: Seq<Seq<char>>, sep: Seq<char>, c: char)
    requires
        p.len() > 0,
    ensures
        join(p.update(p.len() - 1, p.last().push(c)), sep) == join(p, sep).push(c),
{
    let q = p.update(p.len() - 1, p.last().push(c));
    if p.len() > 1 {
        assert(q.drop_last() =~= p.drop_last());
        assert(join(q, sep) =~= join(p, sep).push(c));
    }
}

/// Splitting at one character and joining with it gives the text back.
pub proof fn joining_undoes_splitting(s: Seq<char>, x: char)
    ensures
        join(split_on(s, seq![x]), seq![x]) == s,
{
    let seps = seq![x];
    let cut = |c: char| seps.contains(c);
    pieces_make_the_text(s, cut, x);
    assert forall|i: int| 0 <= i < s.len() && cut(#[trigger] s[i]) implies s[i] == x by {
        let k = choose|k: int| 0 <= k < seps.len() && seps[k] == s[i];
        assert(k == 0);
    }
    assert(join(split_by(s, cut), seq![x]) =~= s);
}

/// One part is itself, and a list that is joined is what its two halves are joined to, with
/// the separator between them.
pub proof fn joining_in_two(a: Seq<Seq<char>>, b: Seq<Seq<char>>, sep: Seq<char>, x: Seq<char>)
    ensures
        join(Seq::<Seq<char>>::empty(), sep).len() == 0,
        join(seq![x], sep) == x,
        a.len() > 0 && b.len() > 0 ==> join(a + b, sep) == join(a, sep) + sep + join(b, sep),
    decreases b.len(),
{
    if a.len() > 0 && b.len() > 0 {
        let less = b.drop_last();
        let ab = a + b;
        joining_in_two(a, less, sep, x);
        assert(ab.drop_last() =~= a + less);
        if less.len() == 0 {
            assert(a + less =~= a);
            assert(join(ab, sep) =~= join(a, sep) + sep + join(b, sep));
        } else {
            assert(join(ab, sep) =~= join(a, sep) + sep + join(b, sep));
        }
    }
}

proof fn pieces_without_marks(s: Seq<char>, cut: spec_fn(char) -> bool)
    ensures
        join(split_by(s, cut), Seq::empty()) == s.filter(|c: char| !cut(c)),
    decreases s.len(),
{
    reveal(Seq::filter);
    if s.len() > 0 {
        let init = s.drop_last();
        let p = split_by(init, cut);
        let none = Seq::<char>::empty();
        pieces_without_marks(init, cut);
        split_nonempty(init, cut);
        let q = split_by(s, cut);
        if cut(s.last()) {
            assert(q.drop_last() =~= p);
            assert(join(q, none) =~= join(p, none));
        } else {
            join_grows(p, none, s.last());
        }
    } else {
        assert(join(split_by(s, cut), Seq::empty()) =~= Seq::<char>::empty());
    }
}

proof fn empty_pieces_do_not_count(p: Seq<Seq<char>>)
    ensures
        join(p.filter(|w: Seq<char>| w.len() > 0), Seq::empty()) == join(p, Seq::empty()),
    decreases p.len(),
{
    reveal(Seq::filter);
    let none = Seq::<char>::empty();
    let f = |w: Seq<char>| w.len() > 0;
    if p.len() > 0 {
        let init = p.drop_last();
        empty_pieces_do_not_count(init);
        let q = p.filter(f);
        let before = init.filter(f);
        assert(join(p, none) =~= join(init, none) + p.last()) by {
            if p.len() == 1 {
                assert(init =~= Seq::<Seq<char>>::empty());
            }
        }
        if f(p.last()) {
            assert(q == before.push(p.last()));
            assert(q.drop_last() =~= before);
            if before.len() == 0 {
                assert(before =~= Seq::<Seq<char>>::empty());
            }
            assert(join(q, none) =~= join(before, none) + p.last());
        } else {
            assert(join(init, none) + p.last() =~= join(init, none));
        }
    } else {
        assert(p.filter(f) =~= p);
    }
}

/// The words of a text hold all of it but the white space, in order; none is empty and none
/// holds white space.
pub proof fn words_are_what_is_not_white(s: Seq<char>, k: int)
    ensures
        join(words(s), Seq::empty()) == s.filter(|c: char| !is_white(c)),
        0 <= k < words(s).len() ==> words(s)[k].len() > 0 && forall|i: int|
            0 <= i < words(s)[k].len() ==> !is_white(#[trigger] words(s)[k][i]),
{
    let cut = |c: char| is_white(c);
    let p = split_by(s, cut);
    pieces_without_marks(s, cut);
    empty_pieces_do_not_count(p);
    assert((|c: char| !cut(c)) =~= (|c: char| !is_white(c)));
    if 0 <= k < words(s).len() {
        let f = |w: Seq<char>| w.len() > 0;
        p.lemma_filter_pred(f, k);
        let w = words(s)[k];
        p.lemma_filter_contains_rev(f, w);
        let i = choose|i: int| 0 <= i < p.len() && p[i] == w;
        split_cuts(s, cut, i);
    }
}

/// The first digit of a number counts as often as there are numbers with the digits behind it.
pub proof fn digits_count_by_their_place(d: char, s: Seq<char>)
    requires
        is_digit(d),
        forall|i: int| 0 <= i < s.len() ==> is_digit(#[trigger] s[i]),
    ensures
        digits_value(seq![d] + s) == (d as int - 48) * vstd::arithmetic::power::pow(10, s.len())
            + digits_value(s),
    decreases s.len(),
{
    reveal(vstd::arithmetic::power::pow);
    let t = seq![d] + s;
    if s.len() == 0 {
        assert(t.drop_last() =~= Seq::<char>::empty());
        assert(digits_value(t.drop_last()) == 0);
        assert(t.last() == d);
    } else {
        let less = s.drop_last();
        assert forall|i: int| 0 <= i < less.len() implies is_digit(#[trigger] less[i]) by {
            assert(less[i] == s[i]);
        }
        digits_count_by_their_place(d, less);
        assert(t.drop_last() =~= seq![d] + less);
        let p = vstd::arithmetic::power::pow(10, less.len());
        assert(vstd::arithmetic::power::pow(10, s.len()) == 10 * p);
        let n = d as int - 48;
        assert((n * p) * 10 == n * (10 * p)) by (nonlinear_arith);
        assert(t.last() == s.last());
        assert(is_digit(s[s.len() - 1]));
    }
}

/// Replacing goes through the text once, from its left: a text without the pattern stays as it
/// is, and what stands before the first place of the pattern stays and is followed by the
/// replacement and by what is made of the rest.
pub proof fn replacing_from_the_left(a: Seq<char>, p: Seq<char>, w: Seq<char>, b: Seq<char>)
    requires
        p.len() > 0,
    ensures
        (forall|i: int| !occurs_at(a, p, i)) ==> replace_all(a, p, w) == a,
        (forall|i: int| 0 <= i < a.len() ==> !occurs_at(a + p + b, p, i)) ==> replace_all(
            a + p + b,
            p,
            w,
        ) == a + w + replace_all(b, p, w),
{
    if forall|i: int| !occurs_at(a, p, i) {
        nothing_is_replaced(a, p, w, 0, a.len() as int);
        assert(a.subrange(0, a.len() as int) =~= a);
        assert(replaced_from(a, p, w, a.len() as int) =~= Seq::<char>::empty());
        assert(replace_all(a, p, w) =~= a);
    }
    let s = a + p + b;
    if forall|i: int| 0 <= i < a.len() ==> !occurs_at(s, p, i) {
        let n = a.len() as int;
        nothing_is_replaced(s, p, w, 0, n);
        assert(s.subrange(0, n) =~= a);
        assert(s.subrange(n, n + p.len()) =~= p);
        rest_is_replaced(a + p, b, p, w, 0);
        assert(a + p + b =~= s);
        assert(replaced_from(s, p, w, n) == w + replaced_from(s, p, w, n + p.len()));
        assert(replace_all(s, p, w) =~= a + w + replace_all(b, p, w));
    }
}

proof fn nothing_is_replaced(s: Seq<char>, p: Seq<char>, w: Seq<char>, i: int, n: int)
    requires
        p.len() > 0,
        0 <= i <= n <= s.len(),
        forall|k: int| i <= k < n ==> !occurs_at(s, p, k),
    ensures
        replaced_from(s, p, w, i) == s.subrange(i, n) + replaced_from(s, p, w, n),
    decreases n - i,
{
    if i < n {
        nothing_is_replaced(s, p, w, i + 1, n);
        assert(!occurs_at(s, p, i));
        assert(s.subrange(i, n) =~= seq![s[i]] + s.subrange(i + 1, n));
        assert(replaced_from(s, p, w, i) =~= s.subrange(i, n) + replaced_from(s, p, w, n));
    } else {
        assert(s.subrange(i, n) + replaced_from(s, p, w, n) =~= replaced_from(s, p, w, n));
    }
}

proof fn rest_is_replaced(a: Seq<char>, b: Seq<char>, p: Seq<char>, w: Seq<char>, i: int)
    requires
        p.len() > 0,
        0 <= i,
    ensures
        replaced_from(a + b, p, w, a.len() + i) == replaced_from(b, p, w, i),
    decreases b.len() - i,
{
    let s = a + b;
    if i < b.len() {
        let k = a.len() + i;
        if i + p.len() <= b.len() {
            assert(s.subrange(k, k + p.len()) =~= b.subrange(i, i + p.len()));
        }
        assert(occurs_at(s, p, k) == occurs_at(b, p, i));
        if occurs_at(b, p, i) {
            rest_is_replaced(a, b, p, w, i + p.len());
        } else {
            rest_is_replaced(a, b, p, w, i + 1);
            assert(s[k] == b[i]);
        }
    }
}

/// Stripping takes the mark from the ends, and nothing else: what is left is one run of the text
/// that neither begins nor ends with the mark, and all before and behind it is the mark.
pub proof fn stripping_takes_the_mark_alone(s: Seq<char>, c: char) -> (r: (int, int))
    ensures
        0 <= r.0 <= r.1 <= s.len(),
        strip_ends(s, c) == s.subrange(r.0, r.1),
        forall|i: int| 0 <= i < r.0 ==> #[trigger] s[i] == c,
        forall|i: int| r.1 <= i < s.len() ==> #[trigger] s[i] == c,
        r.0 < r.1 ==> s[r.0] != c && s[r.1 - 1] != c,
{
    let a = left_is_stripped(s, c);
    let t = s.skip(a);
    let b = right_is_stripped(t, c);
    assert(t.take(b) =~= s.subrange(a, a + b));
    assert forall|i: int| a + b <= i < s.len() implies #[trigger] s[i] == c by {
        assert(t[i - a] == s[i]);
    }
    if b > 0 {
        assert(t[b - 1] == s[a + b - 1]);
    }
    (a, a + b)
}

proof fn left_is_stripped(s: Seq<char>, c: char) -> (a: int)
    ensures
        0 <= a <= s.len(),
        strip_left(s, c) == s.skip(a),
        forall|i: int| 0 <= i < a ==> #[trigger] s[i] == c,
        a < s.len() ==> s[a] != c,
    decreases s.len(),
{
    if s.len() > 0 && s[0] == c {
        let a = left_is_stripped(s.drop_first(), c) + 1;
        assert(s.drop_first().skip(a - 1) =~= s.skip(a));
        assert forall|i: int| 0 <= i < a implies #[trigger] s[i] == c by {
            if i > 0 {
                assert(s.drop_first()[i - 1] == s[i]);
            }
        }
        a
    } else {
        assert(s.skip(0) =~= s);
        0
    }
}

proof fn right_is_stripped(s: Seq<char>, c: char) -> (b: int)
    ensures
        0 <= b <= s.len(),
        strip_right(s, c) == s.take(b),
        forall|i: int| b <= i < s.len() ==> #[trigger] s[i] == c,
        b > 0 ==> s[b - 1] != c,
    decreases s.len(),
{
    if s.len() > 0 && s.last() == c {
        let b = right_is_stripped(s.drop_last(), c);
        assert(s.drop_last().take(b) =~= s.take(b));
        assert forall|i: int| b <= i < s.len() implies #[trigger] s[i] == c by {
            if i < s.len() - 1 {
                assert(s.drop_last()[i] == s[i]);
            }
        }
        b
    } else {
        assert(s.take(s.len() as int) =~= s);
        s.len() as int
    }
}

/// Small letters stand for the capital ones of ASCII and for nothing else: no capital is left,
/// each capital becomes the letter of its place in the alphabet, and all else stays.
pub proof fn capitals_become_small(s: Seq<char>, i: int)
    requires
        0 <= i < s.len(),
    ensures
        ascii_lower_all(s).len() == s.len(),
        'A' <= s[i] && s[i] <= 'Z' ==> ascii_lower_all(s)[i] as int - 'a' as int == s[i] as int
            - 'A' as int,
        !('A' <= s[i] && s[i] <= 'Z') ==> ascii_lower_all(s)[i] == s[i],
        !('A' <= ascii_lower_all(s)[i] && ascii_lower_all(s)[i] <= 'Z'),
{
}

/// What a text is put together from stands in it.
pub proof fn parts_stand_in_the_whole(a: Seq<char>, p: Seq<char>, b: Seq<char>)
    ensures
        has_part(a + p + b, p),
{
    let s = a + p + b;
    assert(s.subrange(a.len() as int, (a.len() + p.len()) as int) =~= p);
    assert(occurs_at(s, p, a.len() as int));
}

/// Each part of a list stands in what the list is joined to; `r` is what stands before and
/// behind it.
pub proof fn parts_of_a_join(v: Seq<Seq<char>>, sep: Seq<char>, i: int) -> (r: (Seq<char>, Seq<char>))
    requires
        0 <= i < v.len(),
    ensures
        join(v, sep) == r.0 + v[i] + r.1,
    decreases v.len(),
{
    let none = Seq::<char>::empty();
    if v.len() == 1 {
        assert(join(v, sep) =~= none + v[i] + none);
        (none, none)
    } else if i == v.len() - 1 {
        let x = join(v.drop_last(), sep) + sep;
        assert(join(v, sep) =~= x + v[i] + none);
        (x, none)
    } else {
        let (x, y) = parts_of_a_join(v.drop_last(), sep, i);
        let z = y + sep + v.last();
        assert(join(v, sep) =~= x + v[i] + z);
        (x, z)
    }
}

} // verus!
