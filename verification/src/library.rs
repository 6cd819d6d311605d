//! Names of the files in a library.
use vstd::prelude::*;
use vstd::string::*;

use crate::config::dec_denotes;
use crate::text::{
    ascii_lower, chars_of, dec, dec_i64, dec_int, dec_u64, ends_stripped, ends_with, has_string,
    is_digit, join, lower, opt_str, string_of_range, strip_ends, stripped_is_part,
    stripping_takes_the_mark_alone, strs,
};

verus! {

/// The sound of a Chinese character in letters, without its tone.
pub uninterp spec fn plain_pinyin(c: char) -> Option<Seq<char>>;

/// Whether `c` is a letter that sounds are written with.
pub open spec fn is_sound_letter(c: char) -> bool {
    'a' <= c <= 'z' || c == 'ü'
}

/// `pinyin::ToPinyin::to_pinyin` of a character and `pinyin::Pinyin::plain`: the first sound of
/// the character without its tone, in small letters and `ü`; `None` where the tables hold no
/// sound. Which sound a character has is left to the name.
#[verifier::external_body]
pub(crate) fn pinyin_of(c: char) -> (r: Option<String>)
    ensures
        opt_str(r) == plain_pinyin(c),
        r matches Some(s) ==> forall|i: int| 0 <= i < s@.len() ==> is_sound_letter(#[trigger] s@[i]),
{
    pinyin::ToPinyin::to_pinyin(&c).map(|p| p.plain().to_string())
}

/// `ü`, with or without a tone, as `v`.
pub open spec fn plain_letter(c: char) -> char {
    if c == 'ü' || c == 'ǖ' || c == 'ǘ' || c == 'ǚ' || c == 'ǜ' {
        'v'
    } else {
        c
    }
}

/// Whether `c` is an ASCII letter or digit.
pub open spec fn is_ascii_alnum(c: char) -> bool {
    'a' <= c <= 'z' || 'A' <= c <= 'Z' || '0' <= c <= '9'
}

/// A slug as it grows: its characters, and whether the next part needs no hyphen before it.
pub open spec fn slug_step(state: (Seq<char>, bool), c: char, sound: Option<Seq<char>>) -> (
    Seq<char>,
    bool,
) {
    let (out, parted) = state;
    match sound {
        Some(p) => {
            let lead = if parted {
                out
            } else {
                out.push('-')
            };
            ((lead + p.map_values(|x: char| plain_letter(x))).push('-'), true)
        },
        None => if is_ascii_alnum(c) {
            (out.push(ascii_lower(c)), false)
        } else if parted {
            state
        } else {
            (out.push('-'), true)
        },
    }
}

/// The slug of `s`, before the hyphens at its ends are taken off.
pub open spec fn raw_slug(s: Seq<char>) -> (Seq<char>, bool)
    decreases s.len(),
{
    if s.len() == 0 {
        (Seq::empty(), true)
    } else {
        slug_step(raw_slug(s.drop_last()), s.last(), plain_pinyin(s.last()))
    }
}

/// The slug of `s`: the sounds of its Chinese characters, its ASCII letters in small and its
/// digits, and a hyphen for what lies between.
pub open spec fn slug(s: Seq<char>) -> Seq<char> {
    strip_ends(raw_slug(s).0, '-')
}

fn push_sound(out: &mut Vec<char>, p: &str)
    ensures
        final(out)@ == old(out)@ + p@.map_values(|x: char| plain_letter(x)),
{
    let v = chars_of(p);
    let ghost before = out@;
    let ghost all = p@.map_values(|x: char| plain_letter(x));
    let mut i: usize = 0;
    assert(before + all.take(0) =~= before);
    while i < v.len()
        invariant
            i <= v@.len(),
            v@ == p@,
            all == p@.map_values(|x: char| plain_letter(x)),
            out@ == before + all.take(i as int),
        decreases v@.len() - i,
    {
        let c = v[i];
        let d = if c == 'ü' || c == 'ǖ' || c == 'ǘ' || c == 'ǚ' || c == 'ǜ' {
            'v'
        } else {
            c
        };
        out.push(d);
        i += 1;
        assert(out@ =~= before + all.take(i as int));
    }
    assert(all.take(v@.len() as int) =~= all);
}

/// Adds a character with its sound to a slug as it grows. Answers whether the next part
/// needs no hyphen before it.
pub fn slug_add(out: &mut Vec<char>, parted: bool, c: char, sound: &Option<String>) -> (r: bool)
    ensures
        (final(out)@, r) == slug_step((old(out)@, parted), c, opt_str(*sound)),
{
    match sound {
        Some(p) => {
            if !parted {
                out.push('-');
            }
            push_sound(out, p);
            out.push('-');
            true
        },
        None => {
            if ('a' <= c && c <= 'z') || ('A' <= c && c <= 'Z') || ('0' <= c && c <= '9') {
                out.push(lower(c));
                false
            } else {
                if !parted {
                    out.push('-');
                }
                true
            }
        },
    }
}

/// The slug of `s`. It holds small letters, digits and hyphens alone, and neither begins nor
/// ends with a hyphen.
pub fn slugify(s: &str) -> (r: String)
    ensures
        r@ == slug(s@),
        all_slug_chars(r@),
        r@.len() > 0 ==> r@[0] != '-' && r@.last() != '-',
{
    let v = chars_of(s);
    let mut out: Vec<char> = Vec::new();
    let mut parted = true;
    let mut i: usize = 0;
    assert(v@.take(0) =~= Seq::<char>::empty());
    assert(out@ =~= Seq::<char>::empty());
    while i < v.len()
        invariant
            i <= v@.len(),
            (out@, parted) == raw_slug(v@.take(i as int)),
            sounds_are_letters(v@.take(i as int)),
        decreases v@.len() - i,
    {
        assert(v@.take(i + 1).drop_last() =~= v@.take(i as int));
        let sound = pinyin_of(v[i]);
        proof {
            let t = v@.take(i + 1);
            assert forall|j: int, k: int|
                0 <= j < t.len() && plain_pinyin(t[j]) is Some && 0 <= k < plain_pinyin(
                    t[j],
                )->0.len() implies is_sound_letter(#[trigger] plain_pinyin(t[j])->0[k]) by {
                if j < i {
                    assert(v@.take(i as int)[j] == t[j]);
                }
            }
        }
        parted = slug_add(&mut out, parted, v[i], &sound);
        i += 1;
    }
    assert(v@.take(v@.len() as int) =~= s@);
    proof {
        slug_is_plain(s@);
    }
    ends_stripped(&out, '-')
}

/// The name of a book's file: its series and volume in brackets where it has one, its
/// author and its title.
pub open spec fn file_name(
    author: Seq<char>,
    title: Seq<char>,
    series: Option<(Seq<char>, int)>,
) -> Seq<char> {
    let lead = match series {
        Some((s, n)) => "["@ + slug(s) + "-"@ + dec_int(n) + "] "@,
        None => Seq::empty(),
    };
    lead + slug(author) + "-"@ + slug(title) + ".epub"@
}

/// The name of a book's file: small letters, digits and hyphens, but for the brackets about a
/// series and the extension.
pub fn to_ascii_filename(author: &str, title: &str, series: Option<(&str, i64)>) -> (r: String)
    ensures
        r@ == file_name(
            author@,
            title@,
            match series {
                Some((s, n)) => Some((s@, n as int)),
                None => None,
            },
        ),
        all_slug_chars(slug(author@)),
        all_slug_chars(slug(title@)),
        series matches Some(v) ==> all_slug_chars(slug(v.0@)),
        all_file_chars(r@),
{
    let lead = match series {
        Some((s, n)) => "[".to_owned().concat(&slugify(s)).concat("-").concat(&dec_i64(n)).concat(
            "] ",
        ),
        None => String::new(),
    };
    let by = slugify(author);
    let name = slugify(title);
    proof {
        name_has_file_chars(
            author@,
            title@,
            match series {
                Some((s, n)) => Some((s@, n as int)),
                None => None,
            },
        );
    }
    lead.as_str().to_owned().concat(&by).concat("-").concat(&name).concat(".epub")
}

// ---- files with the same name ----

/// A name without `.epub` at its end.
pub open spec fn epub_stem(name: Seq<char>) -> Seq<char> {
    if ".epub"@.is_suffix_of(name) {
        name.take(name.len() - 5)
    } else {
        name
    }
}

/// The `n`th name to try: the wanted one, then with 2, 3 and so on before `.epub`.
pub open spec fn tried_name(name: Seq<char>, n: nat) -> Seq<char> {
    if n <= 1 {
        name
    } else {
        epub_stem(name) + "-"@ + dec(n) + ".epub"@
    }
}

/// Whether the `n`th name to try, below the thousandth, is the first that is free.
pub open spec fn is_first_free(taken: Seq<Seq<char>>, name: Seq<char>, n: nat) -> bool {
    &&& 1 <= n < 1000
    &&& !taken.contains(tried_name(name, n))
    &&& forall|m: nat| 1 <= m < n ==> taken.contains(#[trigger] tried_name(name, m))
}

fn stem_text(name: &str) -> (r: String)
    ensures
        r@ == epub_stem(name@),
{
    proof {
        reveal_strlit(".epub");
    }
    if ends_with(name, ".epub") {
        let v = chars_of(name);
        assert(v@.take(v@.len() - 5) =~= v@.subrange(0, v@.len() - 5));
        string_of_range(&v, 0, v.len() - 5)
    } else {
        name.to_owned()
    }
}

/// The name under which a file goes into a directory that holds the files `taken`: the first
/// of those to try that is free, below the thousandth; else one with `mark` in it.
pub fn resolve_collision(taken: &Vec<String>, name: &str, mark: u32) -> (r: String)
    ensures
        (exists|n: nat| #[trigger]
            is_first_free(strs(taken@), name@, n) && r@ == tried_name(name@, n)) || (r@
            == epub_stem(name@) + "-"@ + dec(mark as nat) + ".epub"@ && (forall|m: nat|
            1 <= m < 1000 ==> strs(taken@).contains(#[trigger] tried_name(name@, m)))),
{
    if !has_string(taken, name) {
        assert(is_first_free(strs(taken@), name@, 1));
        return name.to_owned();
    }
    let stem = stem_text(name);
    let mut i: u64 = 2;
    while i < 1000
        invariant
            2 <= i <= 1000,
            stem@ == epub_stem(name@),
            forall|m: nat| 1 <= m < i ==> strs(taken@).contains(#[trigger] tried_name(name@, m)),
        decreases 1000 - i,
    {
        let next = stem.as_str().to_owned().concat("-").concat(&dec_u64(i)).concat(".epub");
        assert(next@ == tried_name(name@, i as nat));
        if !has_string(taken, &next) {
            assert(is_first_free(strs(taken@), name@, i as nat));
            return next;
        }
        i += 1;
    }
    stem.concat("-").concat(&dec_u64(mark as u64)).concat(".epub")
}

// ---- the characters of a slug ----

/// Whether `c` may be in a slug.
pub open spec fn is_slug_char(c: char) -> bool {
    'a' <= c <= 'z' || '0' <= c <= '9' || c == '-'
}

/// Whether every character may be in a slug.
pub open spec fn all_slug_chars(s: Seq<char>) -> bool {
    forall|i: int| 0 <= i < s.len() ==> is_slug_char(#[trigger] s[i])
}

/// Whether `c` may be in the name of a book's file: what a slug may hold, the brackets and the
/// space about a series, and the dot before the extension.
pub open spec fn is_file_char(c: char) -> bool {
    is_slug_char(c) || c == '[' || c == ']' || c == ' ' || c == '.'
}

/// Whether every character may be in the name of a book's file.
pub open spec fn all_file_chars(s: Seq<char>) -> bool {
    forall|i: int| 0 <= i < s.len() ==> is_file_char(#[trigger] s[i])
}

proof fn joined_file_chars(a: Seq<char>, b: Seq<char>)
    requires
        all_file_chars(a),
        all_file_chars(b),
    ensures
        all_file_chars(a + b),
{
    assert forall|i: int| 0 <= i < (a + b).len() implies is_file_char(#[trigger] (a + b)[i]) by {
        if i < a.len() {
            assert((a + b)[i] == a[i]);
        } else {
            assert((a + b)[i] == b[i - a.len()]);
        }
    }
}

proof fn numbers_are_file_chars(n: int)
    ensures
        all_file_chars(dec_int(n)),
{
    let d = if n < 0 {
        dec((-n) as nat)
    } else {
        dec(n as nat)
    };
    dec_denotes(if n < 0 {
        (-n) as nat
    } else {
        n as nat
    });
    assert forall|i: int| 0 <= i < dec_int(n).len() implies is_file_char(
        #[trigger] dec_int(n)[i],
    ) by {
        if n < 0 {
            if i > 0 {
                assert(dec_int(n)[i] == d[i - 1]);
                assert(is_digit(d[i - 1]));
            }
        } else {
            assert(is_digit(d[i]));
        }
    }
}

proof fn name_has_file_chars(author: Seq<char>, title: Seq<char>, series: Option<(Seq<char>, int)>)
    requires
        all_slug_chars(slug(author)),
        all_slug_chars(slug(title)),
        series matches Some(v) ==> all_slug_chars(slug(v.0)),
    ensures
        all_file_chars(file_name(author, title, series)),
{
    reveal_strlit("[");
    reveal_strlit("] ");
    reveal_strlit("-");
    reveal_strlit(".epub");
    let lead: Seq<char> = match series {
        Some((s, n)) => "["@ + slug(s) + "-"@ + dec_int(n) + "] "@,
        None => Seq::empty(),
    };
    match series {
        Some((s, n)) => {
            numbers_are_file_chars(n);
            joined_file_chars("["@, slug(s));
            joined_file_chars("["@ + slug(s), "-"@);
            joined_file_chars("["@ + slug(s) + "-"@, dec_int(n));
            joined_file_chars("["@ + slug(s) + "-"@ + dec_int(n), "] "@);
        },
        None => {},
    }
    joined_file_chars(lead, slug(author));
    joined_file_chars(lead + slug(author), "-"@);
    joined_file_chars(lead + slug(author) + "-"@, slug(title));
    joined_file_chars(lead + slug(author) + "-"@ + slug(title), ".epub"@);
}

/// Whether the sound of every character is written with the letters of sounds.
pub open spec fn sounds_are_letters(s: Seq<char>) -> bool {
    forall|i: int, k: int|
        0 <= i < s.len() && plain_pinyin(s[i]) is Some && 0 <= k < plain_pinyin(s[i])->0.len()
            ==> is_sound_letter(#[trigger] plain_pinyin(s[i])->0[k])
}

proof fn raw_slug_chars(s: Seq<char>)
    requires
        sounds_are_letters(s),
    ensures
        forall|i: int| 0 <= i < raw_slug(s).0.len() ==> is_slug_char(#[trigger] raw_slug(s).0[i]),
    decreases s.len(),
{
    if s.len() > 0 {
        let init = s.drop_last();
        assert(sounds_are_letters(init)) by {
            assert forall|i: int, k: int|
                0 <= i < init.len() && plain_pinyin(init[i]) is Some && 0 <= k < plain_pinyin(
                    init[i],
                )->0.len() implies is_sound_letter(#[trigger] plain_pinyin(init[i])->0[k]) by {
                assert(init[i] == s[i]);
                assert(is_sound_letter(plain_pinyin(s[i])->0[k]));
            }
        }
        raw_slug_chars(init);
        let before = raw_slug(init).0;
        let now = raw_slug(s).0;
        let last = s.len() - 1;
        assert forall|i: int| 0 <= i < now.len() implies is_slug_char(#[trigger] now[i]) by {
            if i < before.len() {
                assert(now[i] == before[i]);
            } else {
                match plain_pinyin(s[last]) {
                    Some(p) => {
                        let lead = if raw_slug(init).1 {
                            before
                        } else {
                            before.push('-')
                        };
                        if lead.len() <= i < lead.len() + p.len() {
                            let k = i - lead.len();
                            assert(now[i] == plain_letter(p[k]));
                            assert(is_sound_letter(plain_pinyin(s[last])->0[k]));
                        }
                    },
                    None => {},
                }
            }
        }
    }
}

proof fn slug_is_plain(s: Seq<char>)
    requires
        sounds_are_letters(s),
    ensures
        forall|i: int| 0 <= i < slug(s).len() ==> is_slug_char(#[trigger] slug(s)[i]),
        slug(s).len() > 0 ==> slug(s)[0] != '-' && slug(s).last() != '-',
{
    raw_slug_chars(s);
    let raw = raw_slug(s).0;
    stripped_is_part(raw, '-');
    assert forall|i: int| 0 <= i < slug(s).len() implies is_slug_char(#[trigger] slug(s)[i]) by {
        assert(slug(s).contains(slug(s)[i]));
        assert(raw.contains(slug(s)[i]));
    }
}

// ---- slugs ----

/// Whether every sound is written with letters of sounds, one at least.
pub open spec fn sounds_are_words(s: Seq<char>) -> bool {
    forall|i: int|
        0 <= i < s.len() ==> (plain_pinyin(#[trigger] s[i]) is Some ==> is_sound(
            plain_pinyin(s[i])->0,
        ))
}

/// Whether a sound is written with letters of sounds, one at least.
pub open spec fn is_sound(p: Seq<char>) -> bool {
    p.len() > 0 && forall|k: int| 0 <= k < p.len() ==> is_sound_letter(#[trigger] p[k])
}

/// The sounds of characters, in letters.
pub open spec fn sounds_of(s: Seq<char>) -> Seq<Seq<char>> {
    s.map_values(|c: char| plain_pinyin(c)->0.map_values(|x: char| plain_letter(x)))
}

/// Whether no two hyphens stand side by side.
pub open spec fn no_double_hyphen(s: Seq<char>) -> bool {
    forall|i: int| 0 <= i < s.len() - 1 ==> !(#[trigger] s[i] == '-' && s[i + 1] == '-')
}

proof fn raw_shape(s: Seq<char>)
    requires
        sounds_are_words(s),
    ensures
        raw_slug(s).1 <==> (raw_slug(s).0.len() == 0 || raw_slug(s).0.last() == '-'),
        raw_slug(s).0.len() > 0 ==> raw_slug(s).0[0] != '-',
        no_double_hyphen(raw_slug(s).0),
    decreases s.len(),
{
    if s.len() > 0 {
        let d = s.drop_last();
        assert(sounds_are_words(d)) by {
            assert forall|i: int|
                0 <= i < d.len() && plain_pinyin(#[trigger] d[i]) is Some implies is_sound(
                plain_pinyin(d[i])->0,
            ) by {
                assert(d[i] == s[i]);
            }
        }
        raw_shape(d);
        let (out, parted) = raw_slug(d);
        let now = raw_slug(s).0;
        let c = s.last();
        assert(s[s.len() - 1] == c);
        match plain_pinyin(c) {
            Some(p) => {
                assert(is_sound(p));
                let q = p.map_values(|x: char| plain_letter(x));
                let lead = if parted {
                    out
                } else {
                    out.push('-')
                };
                assert(now == (lead + q).push('-'));
                assert forall|k: int| 0 <= k < q.len() implies #[trigger] q[k] != '-' by {
                    assert(is_sound_letter(p[k]));
                }
                let n = lead.len() as int;
                assert(now[n] == q[0]);
                assert forall|i: int| 0 <= i < now.len() - 1 implies !(#[trigger] now[i] == '-'
                    && now[i + 1] == '-') by {
                    if i + 1 < n {
                        assert(now[i] == lead[i] && now[i + 1] == lead[i + 1]);
                        if i + 1 < out.len() {
                            assert(lead[i] == out[i] && lead[i + 1] == out[i + 1]);
                            assert(!(out[i] == '-' && out[i + 1] == '-'));
                        } else {
                            assert(lead[i] == out[i] && out[i] == out.last());
                        }
                    } else if i + 1 < n + q.len() {
                        assert(now[i + 1] == q[i + 1 - n]);
                    } else {
                        assert(now[i] == q[i - n]);
                    }
                }
                if n > 0 {
                    assert(now[0] == lead[0]);
                    if out.len() > 0 {
                        assert(lead[0] == out[0]);
                    }
                }
            },
            None => {
                assert forall|i: int| 0 <= i < now.len() - 1 implies !(#[trigger] now[i] == '-'
                    && now[i + 1] == '-') by {
                    if i + 1 < out.len() {
                        assert(now[i] == out[i] && now[i + 1] == out[i + 1]);
                        assert(!(out[i] == '-' && out[i + 1] == '-'));
                    } else {
                        assert(now[i] == out[i]);
                    }
                }
                if out.len() > 0 {
                    assert(now[0] == out[0]);
                }
            },
        }
    }
}

/// A slug has no hyphen at its ends and no two side by side; where it grew a last hyphen, that
/// one is left off.
pub proof fn hyphens_only_part(s: Seq<char>)
    requires
        sounds_are_words(s),
    ensures
        slug(s) == (if raw_slug(s).0.len() > 0 && raw_slug(s).1 {
            raw_slug(s).0.drop_last()
        } else {
            raw_slug(s).0
        }),
        slug(s).len() > 0 ==> slug(s)[0] != '-' && slug(s).last() != '-',
        no_double_hyphen(slug(s)),
{
    raw_shape(s);
    let o = raw_slug(s).0;
    let r = stripping_takes_the_mark_alone(o, '-');
    let t = slug(s);
    if o.len() > 0 {
        if r.0 > 0 {
            assert(o[0] == '-');
        }
        let last = o.len() - 1;
        if o[last] == '-' {
            assert(o.len() >= 2);
            assert(!(o[last - 1] == '-' && o[last - 1 + 1] == '-'));
            if r.1 < last {
                assert(o[last - 1] == '-');
            }
            if r.1 > last {
                assert(o[r.1 - 1] == '-');
            }
            assert(t =~= o.drop_last());
        } else {
            if r.1 <= last {
                assert(o[last] == '-');
            }
            assert(t =~= o);
        }
    }
    assert forall|i: int| 0 <= i < t.len() - 1 implies !(#[trigger] t[i] == '-' && t[i + 1] == '-') by {
        assert(t[i] == o[i] && t[i + 1] == o[i + 1]);
        assert(!(o[i] == '-' && o[i + 1] == '-'));
    }
}

/// A word of ASCII letters and digits stays, in small letters.
pub proof fn a_plain_word_stays(s: Seq<char>)
    requires
        forall|i: int|
            0 <= i < s.len() ==> is_ascii_alnum(#[trigger] s[i]) && plain_pinyin(s[i]) is None,
    ensures
        slug(s) == s.map_values(|c: char| ascii_lower(c)),
{
    plain_word(s);
    assert(sounds_are_words(s));
    hyphens_only_part(s);
    assert(slug(s) =~= s.map_values(|c: char| ascii_lower(c)));
}

proof fn plain_word(s: Seq<char>)
    requires
        forall|i: int|
            0 <= i < s.len() ==> is_ascii_alnum(#[trigger] s[i]) && plain_pinyin(s[i]) is None,
    ensures
        raw_slug(s).0 == s.map_values(|c: char| ascii_lower(c)),
        raw_slug(s).1 <==> s.len() == 0,
    decreases s.len(),
{
    let f = |c: char| ascii_lower(c);
    if s.len() > 0 {
        let d = s.drop_last();
        assert(forall|i: int| 0 <= i < d.len() ==> #[trigger] d[i] == s[i]);
        plain_word(d);
        assert(is_ascii_alnum(s[s.len() - 1]));
        assert(s.map_values(f) =~= d.map_values(f).push(ascii_lower(s.last())));
    } else {
        assert(s.map_values(f) =~= Seq::<char>::empty());
    }
}

/// The slug of Chinese characters is their sounds with a hyphen between them; `ü` is written `v`.
pub proof fn sounds_are_joined_by_hyphens(s: Seq<char>)
    requires
        sounds_are_words(s),
        forall|i: int| 0 <= i < s.len() ==> plain_pinyin(#[trigger] s[i]) is Some,
    ensures
        slug(s) == join(sounds_of(s), "-"@),
{
    raw_sounds(s);
    hyphens_only_part(s);
    reveal_strlit("-");
    if s.len() > 0 {
        let j = join(sounds_of(s), "-"@);
        assert(raw_slug(s).0 =~= j + "-"@);
        assert((j + "-"@).drop_last() =~= j);
    } else {
        assert(sounds_of(s).len() == 0);
        assert(slug(s) =~= join(sounds_of(s), "-"@));
    }
}

proof fn raw_sounds(s: Seq<char>)
    requires
        forall|i: int| 0 <= i < s.len() ==> plain_pinyin(#[trigger] s[i]) is Some,
    ensures
        raw_slug(s).1,
        s.len() > 0 ==> raw_slug(s).0 == join(sounds_of(s), "-"@) + "-"@,
        s.len() == 0 ==> raw_slug(s).0.len() == 0,
    decreases s.len(),
{
    reveal_strlit("-");
    if s.len() > 0 {
        let d = s.drop_last();
        assert(forall|i: int| 0 <= i < d.len() ==> #[trigger] d[i] == s[i]);
        raw_sounds(d);
        let c = s.last();
        assert(plain_pinyin(s[s.len() - 1]) is Some);
        let q = plain_pinyin(c)->0.map_values(|x: char| plain_letter(x));
        assert(sounds_of(s).drop_last() =~= sounds_of(d));
        assert(sounds_of(s).last() == q);
        let out = raw_slug(d).0;
        assert(raw_slug(s).0 == (out + q).push('-'));
        if d.len() == 0 {
            assert(join(sounds_of(s), "-"@) == q);
            assert(raw_slug(s).0 =~= q + "-"@);
        } else {
            assert(join(sounds_of(s), "-"@) == join(sounds_of(d), "-"@) + "-"@ + q);
            assert(raw_slug(s).0 =~= join(sounds_of(s), "-"@) + "-"@);
        }
    }
}

proof fn raw_goes_on(s: Seq<char>, t: Seq<char>)
    requires
        raw_slug(s).1,
    ensures
        raw_slug(s + t) == (raw_slug(s).0 + raw_slug(t).0, raw_slug(t).1),
    decreases t.len(),
{
    let a = raw_slug(s).0;
    if t.len() == 0 {
        assert(s + t =~= s);
        assert(a + raw_slug(t).0 =~= a);
    } else {
        let d = t.drop_last();
        raw_goes_on(s, d);
        assert((s + t).drop_last() =~= s + d);
        assert((s + t).last() == t.last());
        let (x, p) = raw_slug(d);
        let c = t.last();
        match plain_pinyin(c) {
            Some(q) => {
                let w = q.map_values(|y: char| plain_letter(y));
                assert((a + x).push('-') =~= a + x.push('-'));
                assert(((a + x) + w).push('-') =~= a + (x + w).push('-'));
                assert((a + x.push('-') + w).push('-') =~= a + (x.push('-') + w).push('-'));
            },
            None => {
                assert((a + x).push(ascii_lower(c)) =~= a + x.push(ascii_lower(c)));
                assert((a + x).push('-') =~= a + x.push('-'));
            },
        }
    }
}

/// What lies between two names, and is neither a letter nor a digit nor has a sound, becomes one
/// hyphen between their slugs.
pub proof fn what_lies_between_becomes_a_hyphen(a: Seq<char>, x: char, b: Seq<char>)
    requires
        sounds_are_words(a),
        sounds_are_words(b),
        plain_pinyin(x) is None,
        !is_ascii_alnum(x),
        slug(a).len() > 0,
        slug(b).len() > 0,
    ensures
        slug(a.push(x) + b) == slug(a) + "-"@ + slug(b),
{
    reveal_strlit("-");
    let ax = a.push(x);
    let s = ax + b;
    hyphens_only_part(a);
    hyphens_only_part(b);
    raw_shape(a);
    raw_shape(b);
    assert(ax.drop_last() =~= a);
    assert(ax.last() == x);
    let o = raw_slug(a).0;
    assert(raw_slug(ax).1);
    assert(raw_slug(ax).0 =~= slug(a) + "-"@) by {
        if raw_slug(a).1 {
            assert(raw_slug(ax).0 == o);
            assert(o.last() == '-');
            assert(o =~= o.drop_last() + "-"@);
        } else {
            assert(raw_slug(ax).0 == o.push('-'));
        }
    }
    raw_goes_on(ax, b);
    assert(sounds_are_words(s)) by {
        assert forall|i: int|
            0 <= i < s.len() && plain_pinyin(#[trigger] s[i]) is Some implies is_sound(
            plain_pinyin(s[i])->0,
        ) by {
            if i < a.len() {
                assert(s[i] == a[i]);
            } else if i > a.len() {
                assert(s[i] == b[i - a.len() - 1]);
            }
        }
    }
    hyphens_only_part(s);
    let q = raw_slug(b).0;
    let all = raw_slug(s).0;
    assert(all == slug(a) + "-"@ + q);
    if raw_slug(b).1 {
        assert(all.drop_last() =~= slug(a) + "-"@ + q.drop_last());
    }
    assert(slug(s) =~= slug(a) + "-"@ + slug(b));
}

/// The name of a file is the slug of the author and that of the title with a hyphen between them;
/// a series stands before it in brackets, with its volume.
pub proof fn what_a_file_is_called(
    author: Seq<char>,
    title: Seq<char>,
    series: Seq<char>,
    volume: int,
)
    ensures
        file_name(author, title, None) == slug(author) + "-"@ + slug(title) + ".epub"@,
        file_name(author, title, Some((series, volume))) == "["@ + slug(series) + "-"@ + dec_int(
            volume,
        ) + "] "@ + file_name(author, title, None),
{
    let none = Seq::<char>::empty();
    let tail = slug(author) + "-"@ + slug(title) + ".epub"@;
    assert(none + slug(author) + "-"@ + slug(title) + ".epub"@ =~= tail);
    let lead = "["@ + slug(series) + "-"@ + dec_int(volume) + "] "@;
    assert(lead + slug(author) + "-"@ + slug(title) + ".epub"@ =~= lead + tail);
}

/// A name that is taken is tried with a number before its extension, from two on.
pub proof fn numbers_stand_before_the_extension(stem: Seq<char>, n: nat)
    requires
        n >= 2,
    ensures
        tried_name(stem + ".epub"@, 1) == stem + ".epub"@,
        tried_name(stem + ".epub"@, n) == stem + "-"@ + dec(n) + ".epub"@,
{
    reveal_strlit(".epub");
    let name = stem + ".epub"@;
    assert(".epub"@ =~= name.subrange(stem.len() as int, name.len() as int));
    assert(name.take(name.len() - 5) =~= stem);
}

} // verus!
