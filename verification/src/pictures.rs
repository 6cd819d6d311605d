//! Pictures of covers: where they are looked for, and under which names they are kept.
use vstd::prelude::*;
use vstd::string::*;

use crate::ingestion::PreparedImport;
use crate::library::{file_name, to_ascii_filename};
use crate::paths::{join_path, path_in};
use crate::patterns::{first_group, first_match};
use crate::text::{contains, dec, dec_u64, has_part, lowercase, opt_str, same, strs, to_lower};
use crate::utils::{extension_of, path_extension};
use crate::config::dec_denotes;

verus! {

// ---- names ----

/// A small hexadecimal digit.
pub open spec fn small_hex(d: nat) -> char {
    if d < 10 {
        (48 + d) as char
    } else {
        (87 + d) as char
    }
}

/// The last `n` hexadecimal digits of a number.
pub open spec fn hex_tail(h: nat, n: nat) -> Seq<char>
    decreases n,
{
    if n == 0 {
        Seq::empty()
    } else {
        hex_tail(h / 16, (n - 1) as nat).push(small_hex(h % 16))
    }
}

fn push_hex(out: &mut String, h: u64, n: u64)
    ensures
        final(out)@ == old(out)@ + hex_tail(h as nat, n as nat),
    decreases n,
{
    if n == 0 {
        assert(out@ + Seq::<char>::empty() =~= out@);
        return;
    }
    let ghost before = out@;
    push_hex(out, h / 16, n - 1);
    let d: u8 = (h % 16) as u8;
    let c = if d < 10 {
        (48 + d) as char
    } else {
        (87 + d) as char
    };
    out.push(c);
    assert(out@ =~= before + hex_tail(h as nat, n as nat));
}

/// The name of a cover: what its bytes hash to, how many there are, and its extension.
pub open spec fn cover_name(hash: nat, len: nat, ext: Seq<char>) -> Seq<char> {
    hex_tail(hash, 16) + "-"@ + dec(len) + "."@ + ext
}

/// The name of a cover.
pub fn cover_file_name(hash: u64, len: usize, ext: &str) -> (r: String)
    ensures
        r@ == cover_name(hash as nat, len as nat, ext@),
{
    let mut r = String::new();
    push_hex(&mut r, hash, 16);
    assert(r@ =~= hex_tail(hash as nat, 16));
    r.concat("-").concat(&dec_u64(len as u64)).concat(".").concat(ext)
}

/// Covers that differ in their hash or in their length have different names.
pub proof fn cover_names_differ(h1: nat, n1: nat, h2: nat, n2: nat, ext: Seq<char>)
    requires
        h1 <= u64::MAX,
        h2 <= u64::MAX,
        cover_name(h1, n1, ext) == cover_name(h2, n2, ext),
    ensures
        h1 == h2,
        n1 == n2,
{
    let a = cover_name(h1, n1, ext);
    let b = cover_name(h2, n2, ext);
    reveal_strlit("-");
    reveal_strlit(".");
    hex_tail_len(h1, 16);
    hex_tail_len(h2, 16);
    assert(a.take(16) =~= hex_tail(h1, 16));
    assert(b.take(16) =~= hex_tail(h2, 16));
    hex_tail_differs(h1, h2);
    dec_denotes(n1);
    dec_denotes(n2);
    assert(a.len() == 18 + dec(n1).len() + ext.len());
    assert(b.len() == 18 + dec(n2).len() + ext.len());
    assert(a.subrange(17, 17 + dec(n1).len() as int) =~= dec(n1));
    assert(b.subrange(17, 17 + dec(n2).len() as int) =~= dec(n2));
}

proof fn hex_tail_len(h: nat, n: nat)
    ensures
        hex_tail(h, n).len() == n,
    decreases n,
{
    if n > 0 {
        hex_tail_len(h / 16, (n - 1) as nat);
    }
}

proof fn hex_tail_same(h1: nat, h2: nat, n: nat)
    requires
        hex_tail(h1, n) == hex_tail(h2, n),
    ensures
        h1 % pow16(n) == h2 % pow16(n),
    decreases n,
{
    if n > 0 {
        let a = hex_tail(h1, n);
        let b = hex_tail(h2, n);
        assert(a.drop_last() =~= hex_tail(h1 / 16, (n - 1) as nat));
        assert(b.drop_last() =~= hex_tail(h2 / 16, (n - 1) as nat));
        hex_tail_same(h1 / 16, h2 / 16, (n - 1) as nat);
        assert(a.last() == b.last());
        assert(h1 % 16 == h2 % 16);
        let p = pow16((n - 1) as nat);
        pow16_positive((n - 1) as nat);
        mod_step(h1, p);
        mod_step(h2, p);
    }
}

spec fn pow16(n: nat) -> nat
    decreases n,
{
    if n == 0 {
        1
    } else {
        16 * pow16((n - 1) as nat)
    }
}

proof fn pow16_positive(n: nat)
    ensures
        pow16(n) > 0,
    decreases n,
{
    if n > 0 {
        pow16_positive((n - 1) as nat);
    }
}

proof fn mod_step(h: nat, p: nat)
    requires
        p > 0,
    ensures
        h % (16 * p) == 16 * ((h / 16) % p) + h % 16,
{
    vstd::arithmetic::div_mod::lemma_mod_breakdown(h as int, 16, p as int);
}

proof fn hex_tail_differs(h1: nat, h2: nat)
    requires
        h1 <= u64::MAX,
        h2 <= u64::MAX,
        hex_tail(h1, 16) == hex_tail(h2, 16),
    ensures
        h1 == h2,
{
    hex_tail_same(h1, h2, 16);
    assert(pow16(16) == 18446744073709551616) by {
        reveal_with_fuel(pow16, 17);
    }
}

/// The cover inside a book: the subtype of its kind, its bytes, and what they hash to.
#[derive(Debug)]
pub struct EpubCover {
    pub subtype: String,
    pub hash: u64,
    pub bytes: Vec<u8>,
}

/// A file of the directory of covers: where it lies, and what it holds.
#[derive(Debug)]
pub struct KeptCover {
    pub path: String,
    pub bytes: Vec<u8>,
}

/// The extension for a kind of picture.
pub open spec fn kind_extension(subtype: Seq<char>) -> Seq<char> {
    if subtype == "jpeg"@ || subtype.len() == 0 {
        "jpg"@
    } else {
        subtype
    }
}

/// The extension for a kind of picture.
pub fn extension_for_kind(subtype: &str) -> (r: String)
    ensures
        r@ == kind_extension(subtype@),
{
    if same(subtype, "jpeg") || subtype.is_empty() {
        "jpg".to_owned()
    } else {
        subtype.to_owned()
    }
}

/// The file that keeps the cover inside a book, where it has one that is not empty. Its place
/// rests on what the cover holds alone, so that equal covers share a file.
pub fn save_epub_cover(found: Option<EpubCover>, dir: &str) -> (r: Option<KeptCover>)
    ensures
        r is Some <==> found is Some && found->0.bytes@.len() > 0,
        r matches Some(k) ==> k.bytes == found->0.bytes && k.path@ == path_in(
            dir@,
            cover_name(
                found->0.hash as nat,
                found->0.bytes@.len(),
                kind_extension(found->0.subtype@),
            ),
        ),
{
    match found {
        Some(c) => {
            if c.bytes.len() == 0 {
                return None;
            }
            let name = cover_file_name(c.hash, c.bytes.len(), &extension_for_kind(&c.subtype));
            Some(KeptCover { path: join_path(dir, &name), bytes: c.bytes })
        },
        None => None,
    }
}

/// The extension for a cover that the user chose.
pub open spec fn chosen_extension(path: Seq<char>) -> Seq<char> {
    match path_extension(path) {
        Some(e) => if lowercase(e) == "jpeg"@ {
            "jpg"@
        } else {
            lowercase(e)
        },
        None => "jpg"@,
    }
}

/// The extension for a cover that the user chose.
pub fn extension_for_chosen(path: &str) -> (r: String)
    ensures
        r@ == chosen_extension(path@),
{
    match extension_of(path) {
        Some(e) => {
            let e = to_lower(&e);
            if same(&e, "jpeg") {
                "jpg".to_owned()
            } else {
                e
            }
        },
        None => "jpg".to_owned(),
    }
}

/// The name of the copy of a book in the library; a volume that is not known counts as the
/// first.
pub fn library_file_name(p: &PreparedImport) -> (r: String)
    ensures
        r@ == file_name(
            p.author@,
            p.title@,
            match p.series_name {
                Some(n) => Some((n@, match p.series_order {
                    Some(o) => o as int,
                    None => 1,
                })),
                None => None,
            },
        ),
{
    let order: i64 = match p.series_order {
        Some(o) => o,
        None => 1,
    };
    match &p.series_name {
        Some(n) => to_ascii_filename(&p.author, &p.title, Some((n.as_str(), order))),
        None => to_ascii_filename(&p.author, &p.title, None),
    }
}

// ---- places to look for a cover ----

/// A place to look for a cover.
#[derive(Debug)]
pub enum CoverTry {
    /// The picture itself.
    Picture(String),
    /// A page of the review site that shows it.
    Page(String),
}

/// Whether the tries are first the pictures and then the pages, in their order.
pub open spec fn tries_of(v: Seq<CoverTry>, pictures: Seq<Seq<char>>, pages: Seq<Seq<char>>) -> bool {
    &&& v.len() == pictures.len() + pages.len()
    &&& forall|i: int|
        0 <= i < pictures.len() ==> (#[trigger] v[i] matches CoverTry::Picture(u) && u@
            == pictures[i])
    &&& forall|i: int|
        pictures.len() <= i < v.len() ==> (#[trigger] v[i] matches CoverTry::Page(u) && u@
            == pages[i - pictures.len()])
}

/// The places to look for a cover: the pictures that entries name, then the pages.
pub fn cover_tries(pictures: &Vec<String>, pages: &Vec<String>) -> (r: Vec<CoverTry>)
    ensures
        tries_of(r@, strs(pictures@), strs(pages@)),
{
    let mut out: Vec<CoverTry> = Vec::new();
    let ghost ps = strs(pictures@);
    let ghost gs = strs(pages@);
    let mut i: usize = 0;
    while i < pictures.len()
        invariant
            i <= pictures@.len(),
            ps == strs(pictures@),
            out@.len() == i,
            forall|k: int|
                0 <= k < i ==> (#[trigger] out@[k] matches CoverTry::Picture(u) && u@ == ps[k]),
        decreases pictures@.len() - i,
    {
        out.push(CoverTry::Picture(pictures[i].as_str().to_owned()));
        i += 1;
    }
    let mut k: usize = 0;
    while k < pages.len()
        invariant
            k <= pages@.len(),
            ps == strs(pictures@),
            gs == strs(pages@),
            out@.len() == ps.len() + k,
            forall|j: int|
                0 <= j < ps.len() ==> (#[trigger] out@[j] matches CoverTry::Picture(u) && u@
                    == ps[j]),
            forall|j: int|
                ps.len() <= j < out@.len() ==> (#[trigger] out@[j] matches CoverTry::Page(u) && u@
                    == gs[j - ps.len()]),
        decreases pages@.len() - k,
    {
        out.push(CoverTry::Page(pages[k].as_str().to_owned()));
        k += 1;
    }
    out
}

/// Whether an answer is a picture: it succeeded and is not too small.
pub fn is_picture(success: bool, len: usize) -> (r: bool)
    ensures
        r == (success && len > 1024),
{
    success && len > 1024
}

/// The extension of a picture that an entry names.
pub fn entry_picture_extension(url: &str) -> (r: String)
    ensures
        r@ == (if has_part(lowercase(url@), ".png"@) {
            "png"@
        } else {
            "jpg"@
        }),
{
    if contains(&to_lower(url), ".png") {
        "png".to_owned()
    } else {
        "jpg".to_owned()
    }
}

/// The extension of a picture that a page names.
pub fn page_picture_extension(url: &str) -> (r: String)
    ensures
        r@ == (if has_part(url@, ".png"@) {
            "png"@
        } else {
            "jpg"@
        }),
{
    if contains(url, ".png") {
        "png".to_owned()
    } else {
        "jpg".to_owned()
    }
}

pub const OG_IMAGE: &'static str = "<meta[^>]+property=\"og:image\"[^>]+content=\"([^\"]+)\"";

pub const IMAGE_OG: &'static str = "<meta[^>]+content=\"([^\"]+)\"[^>]+property=\"og:image\"";

pub const MAIN_PICTURE: &'static str =
    "<div id=\"mainpic\"[^>]*>.*?<img[^>]*src=\"([^\"]+)\"";

/// The picture that a page shows.
pub open spec fn page_picture(html: Seq<char>) -> Option<Seq<char>> {
    match first_group(OG_IMAGE@, html) {
        Some(u) => Some(u),
        None => match first_group(IMAGE_OG@, html) {
            Some(u) => Some(u),
            None => first_group(MAIN_PICTURE@, html),
        },
    }
}

/// The picture that a page shows.
pub fn picture_of_page(html: &str) -> (r: Option<String>)
    ensures
        opt_str(r) == page_picture(html@),
{
    match first_match(OG_IMAGE, html) {
        Some(u) => Some(u),
        None => match first_match(IMAGE_OG, html) {
            Some(u) => Some(u),
            None => first_match(MAIN_PICTURE, html),
        },
    }
}

/// The page that a picture is asked for from, and whether a cookie goes with it.
pub fn picture_referer(url: &str) -> (r: (String, bool))
    ensures
        r.1 == has_part(url@, "doubanio.com"@),
        r.0@ == (if r.1 {
            "https://book.douban.com/"@
        } else {
            "https://claspclub.com/"@
        }),
{
    if contains(url, "doubanio.com") {
        ("https://book.douban.com/".to_owned(), true)
    } else {
        ("https://claspclub.com/".to_owned(), false)
    }
}

// ---- the cookie ----

/// The next state of the generator.
pub open spec fn bid_next(x: int) -> int {
    (x * 1103515245 + 12345) % 18446744073709551616
}

/// The state of the generator after `n` steps.
pub open spec fn bid_state(seed: int, n: nat) -> int
    decreases n,
{
    if n == 0 {
        seed
    } else {
        bid_next(bid_state(seed, (n - 1) as nat))
    }
}

/// A character of the cookie.
pub open spec fn bid_char(x: int) -> char {
    let k = (x / 65536) % 36;
    if k < 26 {
        (97 + k) as char
    } else {
        (22 + k) as char
    }
}

/// The seed of the generator: the time, made odd.
pub open spec fn bid_seed(nanos: int) -> int {
    if nanos % 2 == 0 {
        nanos + 1
    } else {
        nanos
    }
}

/// The cookie for a time: eleven letters and digits.
pub fn douban_bid(nanos: u64) -> (r: String)
    ensures
        r@ == Seq::new(
            11,
            |i: int| bid_char(bid_state(bid_seed(nanos as int), (i + 1) as nat)),
        ),
{
    let seed: u64 = if nanos % 2 == 0 {
        nanos + 1
    } else {
        nanos
    };
    let ghost want = Seq::new(11, |i: int| bid_char(bid_state(seed as int, (i + 1) as nat)));
    let mut r = String::new();
    let mut x: u64 = seed;
    let mut i: usize = 0;
    assert(r@ =~= want.take(0));
    while i < 11
        invariant
            i <= 11,
            want == Seq::new(11, |i: int| bid_char(bid_state(seed as int, (i + 1) as nat))),
            x == bid_state(seed as int, i as nat),
            r@ == want.take(i as int),
        decreases 11 - i,
    {
        let wide: u128 = (x as u128 * 1103515245 + 12345) % 18446744073709551616;
        x = wide as u64;
        let k: u64 = (x / 65536) % 36;
        let c = if k < 26 {
            (97 + k) as u8 as char
        } else {
            (22 + k) as u8 as char
        };
        assert(bid_state(seed as int, (i + 1) as nat) == x);
        r.push(c);
        i += 1;
        assert(r@ =~= want.take(i as int));
    }
    assert(want.take(11) =~= want);
    r
}

/// The picture of a page is the one that its head names, whichever way round it is written; the
/// one that it shows large counts only where the head names none.
pub proof fn the_head_names_the_picture(html: Seq<char>)
    ensures
        first_group(OG_IMAGE@, html) is Some ==> page_picture(html) == first_group(OG_IMAGE@, html),
        first_group(OG_IMAGE@, html) is None && first_group(IMAGE_OG@, html) is Some
            ==> page_picture(html) == first_group(IMAGE_OG@, html),
        first_group(OG_IMAGE@, html) is None && first_group(IMAGE_OG@, html) is None
            ==> page_picture(html) == first_group(MAIN_PICTURE@, html),
{
}

/// A cover that the user chose keeps its extension in small letters; `jpeg` is written `jpg`, and
/// so is a missing one.
pub proof fn which_extension_a_cover_gets(path: Seq<char>, subtype: Seq<char>)
    ensures
        path_extension(path) is None ==> chosen_extension(path) == "jpg"@,
        path_extension(path) matches Some(e) ==> (lowercase(e) == "jpeg"@ ==> chosen_extension(path)
            == "jpg"@) && (lowercase(e) != "jpeg"@ ==> chosen_extension(path) == lowercase(e)),
        kind_extension("jpeg"@) == "jpg"@,
        subtype.len() > 0 && subtype != "jpeg"@ ==> kind_extension(subtype) == subtype,
        subtype.len() == 0 ==> kind_extension(subtype) == "jpg"@,
{
}

/// The cookie is made of small letters and digits.
pub proof fn the_cookie_has_letters_and_digits(x: int)
    requires
        0 <= x,
    ensures
        'a' <= bid_char(x) <= 'z' || '0' <= bid_char(x) <= '9',
        (x / 65536) % 36 < 26 ==> bid_char(x) as int == 'a' as int + (x / 65536) % 36,
        (x / 65536) % 36 >= 26 ==> bid_char(x) as int == '0' as int + (x / 65536) % 36 - 26,
{
}

/// What is tried for a cover: first each picture, then each page, each once and in order.
pub proof fn pictures_are_tried_before_pages(
    v: Seq<CoverTry>,
    pictures: Seq<Seq<char>>,
    pages: Seq<Seq<char>>,
    i: int,
)
    requires
        tries_of(v, pictures, pages),
        0 <= i < v.len(),
    ensures
        v.len() == pictures.len() + pages.len(),
        i < pictures.len() ==> v[i] is Picture && v[i]->Picture_0@ == pictures[i],
        i >= pictures.len() ==> v[i] is Page && v[i]->Page_0@ == pages[i - pictures.len()],
{
}

} // verus!
