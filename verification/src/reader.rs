//! Reading a book: its chapters as HTML that stands alone.
use vstd::prelude::*;
use vstd::string::*;

use crate::opf::{refill, refilled};
use crate::paths::{resolve_path, resolved, strip_slashes, stripped};
use crate::patterns::{
    captures_all, filling_adds, gaps_between, group, group_of, groups_view, is_match, matches_in,
    matches_view, regex_matches, spliced, whole, whole_of, wholes,
};
use crate::text::{
    chars_of, contains, dec, dec_u64, has_part, is_blank, opt_str, same, split, split_by, split_nonempty,
    split_on, starts_with, string_of_range, strs, strs_push, trim, trimmed,
};
use crate::utils::{html_title, page_title};

verus! {

/// The size up to which a picture is put into the text.
pub const MAX_IMAGE_BYTES: usize = 10 * 1024 * 1024;

/// The size of all pictures of a book that are put into the text.
pub const TOTAL_INLINE_BUDGET: usize = 64 * 1024 * 1024;

/// Scripts and frames.
pub const ACTIVE_TAGS: &'static str =
    r"(?is)<script\b[^>]*>.*?</script\s*>|<script\b[^>]*/?>|<iframe\b[^>]*>.*?</iframe\s*>|<iframe\b[^>]*/?>";

/// Attributes that handle events.
pub const EVENT_ATTRIBUTES: &'static str = r#"(?is)\son[a-z]+\s*=\s*("[^"]*"|'[^']*'|[^\s>]+)"#;

/// References to resources.
pub const RESOURCE_ATTRIBUTES: &'static str = r#"(?i)(\b(?:src|xlink:href)\s*=\s*")([^"]+)(")"#;

/// A chapter.
#[derive(Debug)]
pub struct ReaderChapter {
    pub title: String,
    pub html: String,
}

/// A book.
#[derive(Debug)]
pub struct ReaderContent {
    pub title: String,
    pub chapters: Vec<ReaderChapter>,
}

// ---- Base64 ----

/// The digit for six bits.
pub open spec fn digit_of(n: int) -> char {
    if n < 26 {
        ('A' as int + n) as char
    } else if n < 52 {
        ('a' as int + n - 26) as char
    } else if n < 62 {
        ('0' as int + n - 52) as char
    } else if n == 62 {
        '+'
    } else {
        '/'
    }
}

fn digit(n: u32) -> (r: char)
    requires
        n < 64,
    ensures
        r == digit_of(n as int),
{
    if n < 26 {
        (65 + n as u8) as char
    } else if n < 52 {
        (97 + (n - 26) as u8) as char
    } else if n < 62 {
        (48 + (n - 52) as u8) as char
    } else if n == 62 {
        '+'
    } else {
        '/'
    }
}

/// The four characters for one to three bytes: six bits each of the number that the bytes
/// make up, and `=` for the bytes that are missing.
pub open spec fn quad(chunk: Seq<u8>) -> Seq<char> {
    let b1 = if chunk.len() > 1 {
        chunk[1] as int
    } else {
        0
    };
    let b2 = if chunk.len() > 2 {
        chunk[2] as int
    } else {
        0
    };
    let n = chunk[0] * 65536 + b1 * 256 + b2;
    seq![
        digit_of(n / 262144),
        digit_of(n / 4096 % 64),
        if chunk.len() > 1 {
            digit_of(n / 64 % 64)
        } else {
            '='
        },
        if chunk.len() > 2 {
            digit_of(n % 64)
        } else {
            '='
        },
    ]
}

/// The bytes as text: four characters for every three bytes.
pub open spec fn base64(data: Seq<u8>) -> Seq<char>
    decreases data.len(),
{
    if data.len() == 0 {
        Seq::empty()
    } else if data.len() <= 3 {
        quad(data)
    } else {
        quad(data.take(3)) + base64(data.skip(3))
    }
}

/// The bytes as text.
pub fn base64_encode(data: &[u8]) -> (r: String)
    ensures
        r@ == base64(data@),
{
    let mut out = String::new();
    let len: usize = data.len();
    let mut i: usize = 0;
    assert(data@.skip(0) =~= data@);
    while i < len
        invariant
            i <= len,
            len == data@.len(),
            base64(data@) == out@ + base64(data@.skip(i as int)),
        decreases len - i,
    {
        let ghost rest = data@.skip(i as int);
        let ghost before = out@;
        let left: usize = len - i;
        let b0: u32 = data[i] as u32;
        let b1: u32 = if left > 1 {
            data[i + 1] as u32
        } else {
            0
        };
        let b2: u32 = if left > 2 {
            data[i + 2] as u32
        } else {
            0
        };
        let n: u32 = b0 * 65536 + b1 * 256 + b2;
        out.push(digit(n / 262144));
        out.push(digit(n / 4096 % 64));
        if left > 1 {
            out.push(digit(n / 64 % 64));
        } else {
            out.push('=');
        }
        if left > 2 {
            out.push(digit(n % 64));
        } else {
            out.push('=');
        }
        proof {
            if rest.len() <= 3 {
                assert(out@ =~= before + quad(rest));
            } else {
                assert(out@ =~= before + quad(rest.take(3)));
                assert(rest.skip(3) =~= data@.skip(i + 3));
            }
        }
        if left <= 3 {
            i = len;
            assert(out@ + base64(data@.skip(i as int)) =~= before + quad(rest));
        } else {
            i += 3;
            assert(out@ + base64(data@.skip(i as int)) =~= before + base64(rest));
        }
    }
    assert(out@ + base64(data@.skip(len as int)) =~= out@);
    out
}

/// The six bits of a digit.
pub open spec fn digit_value(c: char) -> int {
    if 'A' <= c <= 'Z' {
        c as int - 'A' as int
    } else if 'a' <= c <= 'z' {
        c as int - 'a' as int + 26
    } else if '0' <= c <= '9' {
        c as int - '0' as int + 52
    } else if c == '+' {
        62
    } else {
        63
    }
}

/// The bytes for four characters.
pub open spec fn quad_bytes(q: Seq<char>) -> Seq<u8> {
    let v2 = if q[2] == '=' {
        0
    } else {
        digit_value(q[2])
    };
    let v3 = if q[3] == '=' {
        0
    } else {
        digit_value(q[3])
    };
    let n = digit_value(q[0]) * 262144 + digit_value(q[1]) * 4096 + v2 * 64 + v3;
    let all = seq![(n / 65536) as u8, (n / 256 % 256) as u8, (n % 256) as u8];
    if q[2] == '=' {
        all.take(1)
    } else if q[3] == '=' {
        all.take(2)
    } else {
        all
    }
}

/// The bytes that a text in Base64 stands for.
pub open spec fn base64_bytes(s: Seq<char>) -> Seq<u8>
    decreases s.len(),
{
    if s.len() < 4 {
        Seq::empty()
    } else {
        quad_bytes(s.take(4)) + base64_bytes(s.skip(4))
    }
}

proof fn digit_has_its_value(n: int)
    requires
        0 <= n < 64,
    ensures
        digit_value(digit_of(n)) == n,
        digit_of(n) != '=',
{
}

proof fn sixes_make_up(n: int)
    requires
        0 <= n < 16777216,
    ensures
        n / 262144 * 262144 + n / 4096 % 64 * 4096 + n / 64 % 64 * 64 + n % 64 == n,
        0 <= n / 262144 < 64,
{
    let a = n / 64;
    let b = a / 64;
    assert(n == a * 64 + n % 64);
    assert(a == b * 64 + a % 64);
    assert(b == b / 64 * 64 + b % 64);
    assert(n / 4096 == b);
    assert(n / 262144 == b / 64);
}

proof fn bytes_make_up(b0: int, b1: int, b2: int)
    requires
        0 <= b0 < 256,
        0 <= b1 < 256,
        0 <= b2 < 256,
    ensures
        ({
            let n = b0 * 65536 + b1 * 256 + b2;
            &&& 0 <= n < 16777216
            &&& n / 65536 == b0
            &&& n / 256 % 256 == b1
            &&& n % 256 == b2
            &&& b2 == 0 ==> n % 64 == 0
            &&& b1 == 0 && b2 == 0 ==> n / 64 % 64 == 0
        }),
{
    let n = b0 * 65536 + b1 * 256 + b2;
    assert(n / 256 == b0 * 256 + b1);
}

proof fn quad_is_undone(chunk: Seq<u8>)
    requires
        1 <= chunk.len() <= 3,
    ensures
        quad_bytes(quad(chunk)) == chunk,
{
    let b0 = chunk[0] as int;
    let b1 = if chunk.len() > 1 {
        chunk[1] as int
    } else {
        0
    };
    let b2 = if chunk.len() > 2 {
        chunk[2] as int
    } else {
        0
    };
    let n = b0 * 65536 + b1 * 256 + b2;
    let q = quad(chunk);
    let s0 = n / 262144;
    let s1 = n / 4096 % 64;
    let s2 = n / 64 % 64;
    let s3 = n % 64;
    bytes_make_up(b0, b1, b2);
    sixes_make_up(n);
    digit_has_its_value(s0);
    digit_has_its_value(s1);
    digit_has_its_value(s2);
    digit_has_its_value(s3);
    assert(digit_value(q[0]) == s0);
    assert(digit_value(q[1]) == s1);
    let v2 = if q[2] == '=' {
        0
    } else {
        digit_value(q[2])
    };
    let v3 = if q[3] == '=' {
        0
    } else {
        digit_value(q[3])
    };
    assert(v2 == s2);
    assert(v3 == s3);
    let m = digit_value(q[0]) * 262144 + digit_value(q[1]) * 4096 + v2 * 64 + v3;
    assert(m == n);
    let all = seq![(n / 65536) as u8, (n / 256 % 256) as u8, (n % 256) as u8];
    assert(all[0] == b0 && all[1] == b1 && all[2] == b2);
    assert(quad_bytes(q) =~= chunk);
}

/// The text for bytes stands for those bytes.
pub proof fn base64_keeps_the_bytes(data: Seq<u8>)
    ensures
        base64_bytes(base64(data)) == data,
        base64(data).len() == (data.len() + 2) / 3 * 4,
    decreases data.len(),
{
    if data.len() == 0 {
    } else if data.len() <= 3 {
        quad_is_undone(data);
        let q = base64(data);
        assert(q.take(4) =~= q);
        assert(q.skip(4).len() == 0);
        assert(base64_bytes(q.skip(4)) =~= Seq::<u8>::empty());
        assert(base64_bytes(q) == quad_bytes(q) + base64_bytes(q.skip(4)));
        assert(base64_bytes(q) =~= data);
    } else {
        base64_keeps_the_bytes(data.skip(3));
        quad_is_undone(data.take(3));
        let q = base64(data);
        assert(q.take(4) =~= quad(data.take(3)));
        assert(q.skip(4) =~= base64(data.skip(3)));
        assert(data.take(3) + data.skip(3) =~= data);
    }
}

/// An equals sign stands only at the end of the text for bytes, where the last three are not
/// full: one for two bytes, and two for one byte.
#[verifier::rlimit(60)]
#[verifier::spinoff_prover]
pub proof fn base64_is_filled_up_at_its_end(data: Seq<u8>, i: int)
    requires
        0 <= i < base64(data).len(),
    ensures
        base64(data)[i] == '=' <==> (data.len() % 3 == 1 && i >= base64(data).len() - 2) || (
        data.len() % 3 == 2 && i == base64(data).len() - 1),
    decreases data.len(),
{
    let all = base64(data);
    if data.len() > 3 {
        let rest = data.skip(3);
        let tail = base64(rest);
        assert(all.len() == 4 + tail.len() && tail.len() >= 4) by {
            base64_keeps_the_bytes(rest);
            base64_keeps_the_bytes(data);
        }
        assert(rest.len() % 3 == data.len() % 3);
        if i < 4 {
            assert(all[i] != '=') by {
                digits_are_no_signs(data.take(3));
                assert(all[i] == quad(data.take(3))[i]);
            }
        } else {
            assert(all[i] == tail[i - 4]);
            base64_is_filled_up_at_its_end(rest, i - 4);
        }
    } else {
        assert(all == quad(data) && all.len() == 4);
        digits_are_no_signs(data);
        assert(data.len() == 1 || data.len() == 2 || data.len() == 3);
    }
}

proof fn digits_are_no_signs(chunk: Seq<u8>)
    requires
        1 <= chunk.len() <= 3,
    ensures
        quad(chunk)[0] != '=',
        quad(chunk)[1] != '=',
        chunk.len() > 1 ==> quad(chunk)[2] != '=',
        chunk.len() > 2 ==> quad(chunk)[3] != '=',
        chunk.len() == 1 ==> quad(chunk)[2] == '=',
        chunk.len() < 3 ==> quad(chunk)[3] == '=',
{
    let b0 = chunk[0] as int;
    let b1 = if chunk.len() > 1 {
        chunk[1] as int
    } else {
        0
    };
    let b2 = if chunk.len() > 2 {
        chunk[2] as int
    } else {
        0
    };
    let n = b0 * 65536 + b1 * 256 + b2;
    bytes_make_up(b0, b1, b2);
    sixes_make_up(n);
    digit_has_its_value(n / 262144);
    digit_has_its_value(n / 4096 % 64);
    digit_has_its_value(n / 64 % 64);
    digit_has_its_value(n % 64);
}

// ---- references ----

/// `path` from the root, without `.` and `..`.
pub open spec fn rooted(path: Seq<char>) -> Seq<char> {
    "/"@ + resolve_path(path)
}

/// `path` from the root, without `.` and `..`.
pub fn normalize_path(path: &str) -> (r: String)
    ensures
        r@ == rooted(path@),
{
    "/".to_owned().concat(&resolved(path))
}

/// A reference without its query and its anchor.
pub open spec fn bare_ref(src: Seq<char>) -> Seq<char> {
    split_on(src, seq!['?', '#'])[0]
}

/// The place in the book that the reference `src` of a chapter in `base_dir` means.
pub open spec fn ref_place(base_dir: Seq<char>, src: Seq<char>) -> Seq<char> {
    let bare = bare_ref(src);
    if "/"@.is_prefix_of(bare) {
        rooted(bare)
    } else {
        rooted(base_dir + bare)
    }
}

/// The place in the book that the reference `src` of a chapter in `base_dir` means.
pub fn resolve_ref(base_dir: &str, src: &str) -> (r: String)
    ensures
        r@ == ref_place(base_dir@, src@),
{
    let marks: Vec<char> = vec!['?', '#'];
    assert(marks@ =~= seq!['?', '#']);
    let parts = split(src, &marks);
    proof {
        let seps = seq!['?', '#'];
        split_nonempty(src@, |c: char| seps.contains(c));
        assert(strs(parts@)[0] == parts@[0]@);
    }
    if starts_with(&parts[0], "/") {
        normalize_path(&parts[0])
    } else {
        normalize_path(&base_dir.to_owned().concat(&parts[0]))
    }
}

// ---- pictures ----

/// A picture of a book.
#[derive(Debug)]
pub struct ReaderImage {
    /// Where it stands, without the slash at the start.
    pub href: String,
    pub mime: String,
    pub bytes: Vec<u8>,
}

/// The media type of a picture that a page can show.
pub open spec fn picture_mime(subtype: Seq<char>) -> Option<Seq<char>> {
    if subtype == "jpg"@ || subtype == "jpeg"@ {
        Some("image/jpeg"@)
    } else if subtype == "png"@ {
        Some("image/png"@)
    } else if subtype == "gif"@ {
        Some("image/gif"@)
    } else if subtype == "svg"@ {
        Some("image/svg+xml"@)
    } else if subtype == "webp"@ {
        Some("image/webp"@)
    } else {
        None
    }
}

/// The media type of a picture that a page can show.
pub fn mime_of(subtype: &str) -> (r: Option<String>)
    ensures
        opt_str(r) == picture_mime(subtype@),
{
    if same(subtype, "jpg") || same(subtype, "jpeg") {
        Some("image/jpeg".to_owned())
    } else if same(subtype, "png") {
        Some("image/png".to_owned())
    } else if same(subtype, "gif") {
        Some("image/gif".to_owned())
    } else if same(subtype, "svg") {
        Some("image/svg+xml".to_owned())
    } else if same(subtype, "webp") {
        Some("image/webp".to_owned())
    } else {
        None
    }
}

/// The size of the pictures.
pub open spec fn total_size(v: Seq<ReaderImage>) -> nat
    decreases v.len(),
{
    if v.len() == 0 {
        0
    } else {
        total_size(v.drop_last()) + v.last().bytes@.len()
    }
}

/// The pictures of a book that are put into the text.
#[derive(Debug)]
pub struct ReaderImages {
    pub images: Vec<ReaderImage>,
    /// What is left of the size of all.
    pub budget: usize,
}

/// The last of the pictures that stands at `key`.
pub open spec fn image_at(v: Seq<ReaderImage>, key: Seq<char>) -> Option<ReaderImage>
    decreases v.len(),
{
    if v.len() == 0 {
        None
    } else if v.last().href@ == key {
        Some(v.last())
    } else {
        image_at(v.drop_last(), key)
    }
}

impl ReaderImages {
    /// No picture is too large, and all together keep to their budget.
    pub open spec fn wf(&self) -> bool {
        &&& total_size(self.images@) + self.budget == TOTAL_INLINE_BUDGET
        &&& forall|i: int|
            0 <= i < self.images@.len() ==> (#[trigger] self.images@[i]).bytes@.len()
                <= MAX_IMAGE_BYTES
    }

    /// No picture.
    pub fn new() -> (r: Self)
        ensures
            r.wf(),
            r.images@ == Seq::<ReaderImage>::empty(),
    {
        ReaderImages { images: Vec::new(), budget: TOTAL_INLINE_BUDGET }
    }

    /// Whether a picture of `len` bytes is taken.
    pub open spec fn takes(&self, subtype: Seq<char>, len: nat) -> bool {
        picture_mime(subtype) is Some && len <= MAX_IMAGE_BYTES && len <= self.budget
    }

    /// Takes a picture of the book, unless it is none that a page can show, or too large, or
    /// over what is left of the budget.
    pub fn offer(&mut self, href: &str, subtype: &str, bytes: Vec<u8>)
        requires
            old(self).wf(),
        ensures
            final(self).wf(),
            !old(self).takes(subtype@, bytes@.len()) ==> *final(self) == *old(self),
            old(self).takes(subtype@, bytes@.len()) ==> {
                let v = final(self).images@;
                &&& v.len() == old(self).images@.len() + 1
                &&& v.drop_last() == old(self).images@
                &&& v.last().href@ == strip_slashes(href@)
                &&& Some(v.last().mime@) == picture_mime(subtype@)
                &&& v.last().bytes == bytes
                &&& final(self).budget == old(self).budget - bytes@.len()
            },
    {
        match mime_of(subtype) {
            Some(mime) => {
                if bytes.len() <= MAX_IMAGE_BYTES && bytes.len() <= self.budget {
                    let ghost before = self.images@;
                    self.budget = self.budget - bytes.len();
                    self.images.push(ReaderImage { href: stripped(href), mime, bytes });
                    assert(self.images@.drop_last() =~= before);
                }
            },
            None => {},
        }
    }

    /// The last of the pictures that stands at `key`.
    pub fn find(&self, key: &str) -> (r: Option<&ReaderImage>)
        ensures
            match r {
                Some(i) => image_at(self.images@, key@) == Some(*i),
                None => image_at(self.images@, key@) is None,
            },
    {
        let _len: usize = self.images.len();
        let mut i: usize = self.images.len();
        assert(self.images@.take(i as int) =~= self.images@);
        while i > 0
            invariant
                i <= self.images@.len() <= usize::MAX,
                image_at(self.images@, key@) == image_at(self.images@.take(i as int), key@),
            decreases i,
        {
            assert(self.images@.take(i as int).drop_last() =~= self.images@.take(i - 1));
            if same(&self.images[i - 1].href, key) {
                return Some(&self.images[i - 1]);
            }
            i -= 1;
        }
        None
    }
}

// ---- chapters ----

/// What stands for a reference: the picture itself, where the book has it.
pub open spec fn inlined(
    m: Seq<Option<Seq<char>>>,
    base_dir: Seq<char>,
    images: Seq<ReaderImage>,
) -> Seq<char> {
    let url = match group(m, 2) {
        Some(u) => u,
        None => Seq::empty(),
    };
    if "data:"@.is_prefix_of(url) || has_part(url, "://"@) {
        whole(m)
    } else {
        match image_at(images, strip_slashes(ref_place(base_dir, url))) {
            Some(i) => {
                let head = match group(m, 1) {
                    Some(h) => h,
                    None => Seq::empty(),
                };
                let tail = match group(m, 3) {
                    Some(t) => t,
                    None => Seq::empty(),
                };
                head + "data:"@ + i.mime@ + ";base64,"@ + base64(i.bytes@) + tail
            },
            None => whole(m),
        }
    }
}

fn or_empty(o: Option<String>) -> (r: String)
    ensures
        r@ == (match o {
            Some(s) => s@,
            None => Seq::empty(),
        }),
{
    match o {
        Some(s) => s,
        None => String::new(),
    }
}

/// What stands for a reference: the picture itself, where the book has it.
pub fn inline_reference(m: &Vec<Option<String>>, base_dir: &str, images: &ReaderImages) -> (r: String)
    ensures
        r@ == inlined(groups_view(m@), base_dir@, images.images@),
{
    let url = or_empty(group_of(m, 2));
    if starts_with(&url, "data:") || contains(&url, "://") {
        return whole_of(m);
    }
    let key = stripped(&resolve_ref(base_dir, &url));
    match images.find(&key) {
        Some(i) => or_empty(group_of(m, 1)).concat("data:").concat(&i.mime).concat(";base64,").concat(
            &base64_encode(i.bytes.as_slice()),
        ).concat(&or_empty(group_of(m, 3))),
        None => whole_of(m),
    }
}

/// What stands for each reference.
pub open spec fn inlined_all(
    ms: Seq<Seq<Option<Seq<char>>>>,
    base_dir: Seq<char>,
    images: Seq<ReaderImage>,
) -> Seq<Seq<char>> {
    ms.map_values(|m: Seq<Option<Seq<char>>>| inlined(m, base_dir, images))
}

/// What stands for each reference.
pub fn inline_references(
    ms: &Vec<Vec<Option<String>>>,
    base_dir: &str,
    images: &ReaderImages,
) -> (r: Vec<String>)
    ensures
        strs(r@) == inlined_all(matches_view(ms@), base_dir@, images.images@),
{
    let ghost want = inlined_all(matches_view(ms@), base_dir@, images.images@);
    let mut out: Vec<String> = Vec::new();
    let mut i: usize = 0;
    assert(strs(out@) =~= want.take(0));
    while i < ms.len()
        invariant
            i <= ms@.len(),
            want == inlined_all(matches_view(ms@), base_dir@, images.images@),
            strs(out@) == want.take(i as int),
        decreases ms@.len() - i,
    {
        assert(matches_view(ms@)[i as int] == groups_view(ms@[i as int]@));
        let s = inline_reference(&ms[i], base_dir, images);
        proof {
            strs_push(out@, s);
        }
        out.push(s);
        i += 1;
        assert(strs(out@) =~= want.take(i as int));
    }
    assert(want.take(ms@.len() as int) =~= want);
    out
}

/// `text` without what `pattern` matches.
pub open spec fn without(pattern: Seq<char>, text: Seq<char>) -> Seq<char> {
    refill(pattern, text, Seq::empty())
}

/// `text` without what `pattern` matches.
fn removed(pattern: &str, text: &str) -> (r: String)
    ensures
        r@ == without(pattern@, text@),
        regex_matches(pattern@, text@) is None ==> r@ == text@,
        regex_matches(pattern@, text@) == Some(Seq::<Seq<Option<Seq<char>>>>::empty()) ==> r@
            == text@,
        r@.len() <= text@.len(),
        matches_in(pattern@, text@) && whole(regex_matches(pattern@, text@)->0[0]).len() > 0
            ==> r@.len() < text@.len(),
{
    let none: Vec<String> = Vec::new();
    proof {
        assert(strs(none@) =~= Seq::<Seq<char>>::empty());
        assert(wholes(Seq::<Seq<Option<Seq<char>>>>::empty()) =~= Seq::<Seq<char>>::empty());
    }
    match gaps_between(pattern, text) {
        Some(gaps) => {
            proof {
                let all = wholes(regex_matches(pattern@, text@)->0);
                filling_adds(strs(gaps@), all);
                assert(strs(gaps@).len() == gaps@.len());
            }
            spliced(&gaps, &none)
        },
        None => text.to_owned(),
    }
}

/// Whether a page has no scripts, no frames and no event attributes.
pub open spec fn is_quiet(html: Seq<char>) -> bool {
    &&& regex_matches(ACTIVE_TAGS@, html) == Some(Seq::<Seq<Option<Seq<char>>>>::empty())
    &&& regex_matches(EVENT_ATTRIBUTES@, html) == Some(Seq::<Seq<Option<Seq<char>>>>::empty())
}

/// A page once its scripts and frames, then its event attributes are taken out.
pub open spec fn without_actions(html: Seq<char>) -> Seq<char> {
    without(EVENT_ATTRIBUTES@, without(ACTIVE_TAGS@, html))
}

/// A page without scripts, frames and event attributes: they are taken out as long as there
/// are any, since what is left may join to a new one.
pub open spec fn quieted(html: Seq<char>) -> Seq<char>
    decreases html.len(),
{
    if is_quiet(html) || without_actions(html).len() >= html.len() {
        html
    } else {
        quieted(without_actions(html))
    }
}

/// A page without scripts, frames and event attributes.
fn quiet_page(html: &str) -> (r: String)
    ensures
        r@ == quieted(html@),
        is_quiet(r@),
{
    let mut page = html.to_owned();
    loop
        invariant
            quieted(page@) == quieted(html@),
        decreases page@.len(),
    {
        let active = is_match(ACTIVE_TAGS, &page);
        let events = is_match(EVENT_ATTRIBUTES, &page);
        if !active && !events {
            assert(regex_matches(ACTIVE_TAGS@, page@)->0 =~= Seq::empty());
            assert(regex_matches(EVENT_ATTRIBUTES@, page@)->0 =~= Seq::empty());
            return page;
        }
        let inert = removed(ACTIVE_TAGS, &page);
        proof {
            if !active {
                assert(regex_matches(ACTIVE_TAGS@, page@)->0 =~= Seq::empty());
            }
        }
        let next = removed(EVENT_ATTRIBUTES, &inert);
        assert(next@ == without_actions(page@));
        page = next;
    }
}

/// A page that does nothing and holds the pictures that it refers to.
pub open spec fn standalone(
    html: Seq<char>,
    base_dir: Seq<char>,
    images: Seq<ReaderImage>,
) -> Seq<char> {
    let safe = quieted(html);
    match regex_matches(RESOURCE_ATTRIBUTES@, safe) {
        Some(ms) => quieted(
            refill(RESOURCE_ATTRIBUTES@, safe, inlined_all(ms, base_dir, images)),
        ),
        None => safe,
    }
}

/// A page that does nothing and holds the pictures that it refers to. A page with nothing to
/// take out or to put in stays as it is.
pub fn sanitize_and_inline(html: &str, base_dir: &str, images: &ReaderImages) -> (r: String)
    ensures
        r@ == standalone(html@, base_dir@, images.images@),
        is_quiet(r@),
        is_quiet(html@) && regex_matches(RESOURCE_ATTRIBUTES@, html@) == Some(
            Seq::<Seq<Option<Seq<char>>>>::empty(),
        ) ==> r@ == html@,
{
    let safe = quiet_page(html);
    match captures_all(RESOURCE_ATTRIBUTES, &safe) {
        Some(ms) => {
            let fill = inline_references(&ms, base_dir, images);
            proof {
                if matches_view(ms@).len() == 0 {
                    assert(strs(fill@) =~= wholes(matches_view(ms@)));
                }
            }
            quiet_page(&refilled(RESOURCE_ATTRIBUTES, &safe, &fill))
        },
        None => safe,
    }
}

/// The directory of the page at `href`, from the root.
pub open spec fn page_dir(href: Seq<char>) -> Seq<char> {
    match last_slash(href) {
        Some(i) => "/"@ + href.take(i) + "/"@,
        None => "/"@,
    }
}

/// Where the last slash stands.
pub open spec fn last_slash(s: Seq<char>) -> Option<int>
    decreases s.len(),
{
    if s.len() == 0 {
        None
    } else if s.last() == '/' {
        Some(s.len() - 1)
    } else {
        last_slash(s.drop_last())
    }
}

/// The directory of the page at `href`, from the root.
pub fn base_dir_of(href: &str) -> (r: String)
    ensures
        r@ == page_dir(href@),
{
    let v = chars_of(href);
    let _len: usize = v.len();
    let mut i: usize = v.len();
    assert(v@.take(i as int) =~= v@);
    while i > 0
        invariant
            i <= v@.len() <= usize::MAX,
            v@ == href@,
            last_slash(v@) == last_slash(v@.take(i as int)),
        decreases i,
    {
        assert(v@.take(i as int).drop_last() =~= v@.take(i - 1));
        if v[i - 1] == '/' {
            assert(v@.take(i - 1) =~= v@.subrange(0, i - 1));
            return "/".to_owned().concat(&string_of_range(&v, 0, i - 1)).concat("/");
        }
        i -= 1;
    }
    "/".to_owned()
}

/// Whether the last slash of `s` stands at `n`.
pub open spec fn is_last_slash(s: Seq<char>, n: int) -> bool {
    0 <= n < s.len() && s[n] == '/' && forall|m: int| n < m < s.len() ==> #[trigger] s[m] != '/'
}

/// The directory of a page is all of its place up to its last slash, from the root; a page
/// without a slash stands in the root.
pub proof fn directory_of_a_page(href: Seq<char>, n: int)
    ensures
        is_last_slash(href, n) ==> page_dir(href) == "/"@ + href.take(n + 1),
        !href.contains('/') ==> page_dir(href) == "/"@,
{
    reveal_strlit("/");
    slash_is_last(href);
    match last_slash(href) {
        Some(i) => {
            if is_last_slash(href, n) {
                if i < n {
                    assert(href[n] != '/');
                } else if n < i {
                    assert(href[i] != '/');
                }
                assert("/"@ + href.take(n) + "/"@ =~= "/"@ + href.take(n + 1));
            }
            assert(href.contains(href[i]));
        },
        None => {},
    }
}

proof fn slash_is_last(s: Seq<char>)
    ensures
        match last_slash(s) {
            Some(i) => is_last_slash(s, i),
            None => !s.contains('/'),
        },
    decreases s.len(),
{
    if s.len() > 0 && s.last() != '/' {
        let init = s.drop_last();
        slash_is_last(init);
        match last_slash(init) {
            Some(i) => {
                assert(s[i] == init[i]);
                assert forall|m: int| i < m < s.len() implies #[trigger] s[m] != '/' by {
                    if m < init.len() {
                        assert(init[m] == s[m]);
                    }
                }
            },
            None => {
                if s.contains('/') {
                    let k = choose|k: int| 0 <= k < s.len() && s[k] == '/';
                    assert(init[k] == '/');
                }
            },
        }
    }
}

/// A reference is read up to its query or its anchor; where it begins with a slash it is read
/// from the root, and else from the directory of its chapter.
pub proof fn references_are_read_from_the_chapter(
    base_dir: Seq<char>,
    bare: Seq<char>,
    rest: Seq<char>,
)
    requires
        !bare.contains('?') && !bare.contains('#'),
        rest.len() == 0 || rest[0] == '?' || rest[0] == '#',
    ensures
        bare.len() > 0 && bare[0] == '/' ==> ref_place(base_dir, bare + rest) == "/"@
            + resolve_path(bare),
        bare.len() == 0 || bare[0] != '/' ==> ref_place(base_dir, bare + rest) == "/"@
            + resolve_path(base_dir + bare),
{
    let seps = seq!['?', '#'];
    reveal_strlit("/");
    first_piece(bare, rest, |c: char| seps.contains(c));
    assert(bare_ref(bare + rest) == bare) by {
        assert(seps[0] == '?' && seps[1] == '#');
        assert(seps.contains('?') && seps.contains('#'));
        assert forall|i: int| 0 <= i < bare.len() implies !seps.contains(#[trigger] bare[i]) by {
            assert(bare.contains(bare[i]));
        }
        first_piece(bare, rest, |c: char| seps.contains(c));
    }
    if bare.len() > 0 {
        assert(bare.subrange(0, 1)[0] == bare[0]);
        if bare[0] == '/' {
            assert("/"@ =~= bare.subrange(0, 1));
        } else if "/"@.is_prefix_of(bare) {
            assert("/"@[0] == bare[0]);
        }
    }
}

proof fn first_piece(a: Seq<char>, b: Seq<char>, cut: spec_fn(char) -> bool)
    ensures
        (forall|i: int| 0 <= i < a.len() ==> !cut(#[trigger] a[i])) && (b.len() == 0 || cut(b[0]))
            ==> split_by(a + b, cut)[0] == a && split_by(a + b, cut).len() >= 1,
    decreases b.len(),
{
    if (forall|i: int| 0 <= i < a.len() ==> !cut(#[trigger] a[i])) && (b.len() == 0 || cut(b[0])) {
        if b.len() == 0 {
            assert(a + b =~= a);
            uncut(a, cut);
        } else {
            let s = a + b;
            let less = b.drop_last();
            assert(s.drop_last() =~= a + less);
            if less.len() > 0 {
                assert(less[0] == b[0]);
            }
            first_piece(a, less, cut);
            let p = split_by(a + less, cut);
            if !cut(s.last()) {
                assert(less.len() > 0);
                more_than_one(a, less, cut);
            }
        }
    }
}

proof fn more_than_one(a: Seq<char>, b: Seq<char>, cut: spec_fn(char) -> bool)
    requires
        b.len() > 0,
        cut(b[0]),
    ensures
        split_by(a + b, cut).len() >= 2,
    decreases b.len(),
{
    let s = a + b;
    let less = b.drop_last();
    assert(s.drop_last() =~= a + less);
    split_nonempty(a + less, cut);
    if less.len() > 0 {
        assert(less[0] == b[0]);
        more_than_one(a, less, cut);
    }
}

proof fn uncut(a: Seq<char>, cut: spec_fn(char) -> bool)
    requires
        forall|i: int| 0 <= i < a.len() ==> !cut(#[trigger] a[i]),
    ensures
        split_by(a, cut) == seq![a],
    decreases a.len(),
{
    if a.len() > 0 {
        let init = a.drop_last();
        assert forall|i: int| 0 <= i < init.len() implies !cut(#[trigger] init[i]) by {
            assert(init[i] == a[i]);
        }
        uncut(init, cut);
        assert(init.push(a.last()) =~= a);
        assert(split_by(a, cut) =~= seq![a]);
    } else {
        assert(a =~= Seq::<char>::empty());
        assert(split_by(a, cut) =~= seq![a]);
    }
}

/// A reference to a picture that was taken is replaced by the picture itself: for a reference
/// `u` of a page in `base_dir` that means the place of picture `k`, where none that was taken
/// later stands, what stands before it is followed by the data of the picture, in Base64 and
/// with its media type, and by what stands behind it.
pub proof fn pictures_take_the_place_of_references(
    m: Seq<Option<Seq<char>>>,
    base_dir: Seq<char>,
    images: Seq<ReaderImage>,
    k: int,
)
    requires
        m.len() >= 4,
        m[1] is Some && m[2] is Some && m[3] is Some,
        !"data:"@.is_prefix_of(m[2]->0),
        !has_part(m[2]->0, "://"@),
        0 <= k < images.len(),
        images[k].href@ == strip_slashes(ref_place(base_dir, m[2]->0)),
        forall|j: int| k < j < images.len() ==> (#[trigger] images[j]).href@ != images[k].href@,
    ensures
        inlined(m, base_dir, images) == m[1]->0 + "data:"@ + images[k].mime@ + ";base64,"@ + base64(
            images[k].bytes@,
        ) + m[3]->0,
{
    last_image(images, k);
}

proof fn last_image(v: Seq<ReaderImage>, k: int)
    requires
        0 <= k < v.len(),
        forall|j: int| k < j < v.len() ==> (#[trigger] v[j]).href@ != v[k].href@,
    ensures
        image_at(v, v[k].href@) == Some(v[k]),
    decreases v.len(),
{
    if k < v.len() - 1 {
        let init = v.drop_last();
        assert(v[v.len() - 1].href@ != v[k].href@);
        assert forall|j: int| k < j < init.len() implies (#[trigger] init[j]).href@
            != init[k].href@ by {
            assert(init[j] == v[j]);
        }
        last_image(init, k);
    }
}

/// References that are data already, that lead out of the book, or that mean no picture that
/// was taken stay as they are.
pub proof fn other_references_stay(
    m: Seq<Option<Seq<char>>>,
    base_dir: Seq<char>,
    images: Seq<ReaderImage>,
)
    requires
        m.len() >= 4,
        m[0] is Some && m[2] is Some,
        "data:"@.is_prefix_of(m[2]->0) || has_part(m[2]->0, "://"@) || forall|k: int|
            0 <= k < images.len() ==> (#[trigger] images[k]).href@ != strip_slashes(
                ref_place(base_dir, m[2]->0),
            ),
    ensures
        inlined(m, base_dir, images) == m[0]->0,
{
    no_image(images, strip_slashes(ref_place(base_dir, m[2]->0)));
}

proof fn no_image(v: Seq<ReaderImage>, key: Seq<char>)
    ensures
        (forall|k: int| 0 <= k < v.len() ==> (#[trigger] v[k]).href@ != key) ==> image_at(v, key)
            is None,
    decreases v.len(),
{
    if v.len() > 0 && (forall|k: int| 0 <= k < v.len() ==> (#[trigger] v[k]).href@ != key) {
        let init = v.drop_last();
        assert(v[v.len() - 1].href@ != key);
        assert forall|k: int| 0 <= k < init.len() implies (#[trigger] init[k]).href@ != key by {
            assert(init[k] == v[k]);
        }
        no_image(init, key);
    }
}

/// A page that does nothing holds, for each of its references, what stands for it; all else
/// stays where it was.
pub proof fn a_page_holds_its_pictures(
    html: Seq<char>,
    base_dir: Seq<char>,
    images: Seq<ReaderImage>,
    fill: Seq<Seq<char>>,
)
    requires
        is_quiet(html),
        regex_matches(RESOURCE_ATTRIBUTES@, html) is Some,
        fill.len() == regex_matches(RESOURCE_ATTRIBUTES@, html)->0.len(),
        forall|j: int|
            0 <= j < fill.len() ==> #[trigger] fill[j] == inlined(
                regex_matches(RESOURCE_ATTRIBUTES@, html)->0[j],
                base_dir,
                images,
            ),
        is_quiet(refill(RESOURCE_ATTRIBUTES@, html, fill)),
    ensures
        standalone(html, base_dir, images) == refill(RESOURCE_ATTRIBUTES@, html, fill),
{
    let ms = regex_matches(RESOURCE_ATTRIBUTES@, html)->0;
    assert(fill =~= inlined_all(ms, base_dir, images));
}

/// A page of a book, in reading order.
#[derive(Debug)]
pub struct Page {
    pub href: String,
    pub content: String,
}

/// Whether `c` shows page `n` of the book, counted from 0.
pub open spec fn shows_page(c: ReaderChapter, p: Page, n: nat, images: Seq<ReaderImage>) -> bool {
    &&& c.title@ == (match page_title(p.content@) {
        Some(t) => t,
        None => "第 "@ + dec(n + 1) + " 节"@,
    })
    &&& c.html@ == standalone(p.content@, page_dir(p.href@), images)
}

/// The title of a book.
pub open spec fn book_title(found: Option<Seq<char>>) -> Seq<char> {
    match found {
        Some(t) => if trim(t).len() > 0 {
            trim(t)
        } else {
            "未命名"@
        },
        None => "未命名"@,
    }
}

/// A book to read: its pages as chapters. A book without pages is the error.
pub fn assemble(found: &Option<String>, pages: &Vec<Page>, images: &ReaderImages) -> (r: Result<
    ReaderContent,
    String,
>)
    ensures
        match r {
            Ok(c) => {
                &&& pages@.len() > 0
                &&& c.title@ == book_title(opt_str(*found))
                &&& c.chapters@.len() == pages@.len()
                &&& forall|i: int|
                    0 <= i < pages@.len() ==> shows_page(
                        #[trigger] c.chapters@[i],
                        pages@[i],
                        i as nat,
                        images.images@,
                    )
                &&& forall|i: int, n: int|
                    0 <= i < pages@.len() && is_last_slash(#[trigger] pages@[i].href@, n)
                        ==> c.chapters@[i].html@ == #[trigger] standalone(
                        pages@[i].content@,
                        "/"@ + pages@[i].href@.take(n + 1),
                        images.images@,
                    )
                &&& forall|i: int|
                    0 <= i < pages@.len() && !pages@[i].href@.contains('/') ==> (
                    #[trigger] c.chapters@[i]).html@ == standalone(
                        pages@[i].content@,
                        "/"@,
                        images.images@,
                    )
            },
            Err(e) => pages@.len() == 0 && e@ == "EPUB 中没有可读章节"@,
        },
{
    let title = match found {
        Some(t) => {
            let t = trimmed(t);
            if t.as_str().is_empty() {
                "未命名".to_owned()
            } else {
                t
            }
        },
        None => "未命名".to_owned(),
    };
    if pages.len() == 0 {
        return Err("EPUB 中没有可读章节".to_owned());
    }
    let _len: usize = pages.len();
    let mut chapters: Vec<ReaderChapter> = Vec::new();
    let mut i: usize = 0;
    while i < pages.len()
        invariant
            i <= pages@.len() <= usize::MAX,
            chapters@.len() == i,
            forall|k: int|
                0 <= k < i ==> shows_page(
                    #[trigger] chapters@[k],
                    pages@[k],
                    k as nat,
                    images.images@,
                ),
        decreases pages@.len() - i,
    {
        let p = &pages[i];
        let title = match html_title(&p.content) {
            Some(t) => t,
            None => "第 ".to_owned().concat(&dec_u64(i as u64 + 1)).concat(" 节"),
        };
        let html = sanitize_and_inline(&p.content, &base_dir_of(&p.href), images);
        let c = ReaderChapter { title, html };
        assert(shows_page(c, pages@[i as int], i as nat, images.images@));
        chapters.push(c);
        i += 1;
    }
    proof {
        assert forall|i: int, n: int|
            0 <= i < pages@.len() && is_last_slash(#[trigger] pages@[i].href@, n) implies chapters@[i].html@
            == #[trigger] standalone(
            pages@[i].content@,
            "/"@ + pages@[i].href@.take(n + 1),
            images.images@,
        ) by {
            assert(shows_page(chapters@[i], pages@[i], i as nat, images.images@));
            directory_of_a_page(pages@[i].href@, n);
        }
        assert forall|i: int|
            0 <= i < pages@.len() && !pages@[i].href@.contains('/') implies (
        #[trigger] chapters@[i]).html@ == standalone(pages@[i].content@, "/"@, images.images@) by {
            assert(shows_page(chapters@[i], pages@[i], i as nat, images.images@));
            directory_of_a_page(pages@[i].href@, 0);
        }
    }
    Ok(ReaderContent { title, chapters })
}

/// The digits of Base64 are the capital letters, the small ones, the figures, a plus sign and a
/// slash, in this order.
pub proof fn digits_of_base64(n: int)
    ensures
        0 <= n < 26 ==> digit_of(n) as int == 'A' as int + n,
        26 <= n < 52 ==> digit_of(n) as int == 'a' as int + (n - 26),
        52 <= n < 62 ==> digit_of(n) as int == '0' as int + (n - 52),
        digit_of(62) == '+' && digit_of(63) == '/',
{
}

/// Which pictures a page can show, and as what.
pub proof fn which_pictures_are_shown(subtype: Seq<char>)
    ensures
        picture_mime("jpg"@) == Some("image/jpeg"@) && picture_mime("jpeg"@) == Some("image/jpeg"@),
        picture_mime("png"@) == Some("image/png"@),
        picture_mime("gif"@) == Some("image/gif"@),
        picture_mime("svg"@) == Some("image/svg+xml"@),
        picture_mime("webp"@) == Some("image/webp"@),
        picture_mime(subtype) is Some ==> subtype == "jpg"@ || subtype == "jpeg"@ || subtype
            == "png"@ || subtype == "gif"@ || subtype == "svg"@ || subtype == "webp"@,
{
    reveal_strlit("jpg");
    reveal_strlit("jpeg");
    reveal_strlit("png");
    reveal_strlit("gif");
    reveal_strlit("svg");
    reveal_strlit("webp");
    assert("png"@[0] != "jpg"@[0]);
    assert("png"@[0] != "jpeg"@[0]);
    assert("gif"@[0] != "jpg"@[0] && "gif"@[0] != "jpeg"@[0] && "gif"@[0] != "png"@[0]);
    assert("svg"@[0] != "jpg"@[0] && "svg"@[0] != "jpeg"@[0] && "svg"@[0] != "png"@[0]);
    assert("svg"@[0] != "gif"@[0]);
    assert("webp"@[0] != "jpg"@[0] && "webp"@[0] != "jpeg"@[0] && "webp"@[0] != "png"@[0]);
    assert("webp"@[0] != "gif"@[0] && "webp"@[0] != "svg"@[0]);
}

/// The pictures of a book are as large as all of them together.
pub proof fn sizes_add_up(a: Seq<ReaderImage>, b: Seq<ReaderImage>)
    ensures
        total_size(a + b) == total_size(a) + total_size(b),
        b.len() == 1 ==> total_size(b) == b[0].bytes@.len(),
    decreases b.len(),
{
    if b.len() == 0 {
        assert(a + b =~= a);
    } else {
        assert((a + b).drop_last() =~= a + b.drop_last());
        assert((a + b).last() == b.last());
        sizes_add_up(a, b.drop_last());
        if b.len() == 1 {
            assert(total_size(b.drop_last()) == 0);
        }
    }
}

/// A chapter has the title that its page gives it, and without one its number, from one on; a
/// book without a title is said to have none.
pub proof fn what_a_chapter_is_called(
    c: ReaderChapter,
    p: Page,
    n: nat,
    images: Seq<ReaderImage>,
    title: Seq<char>,
)
    requires
        shows_page(c, p, n, images),
    ensures
        page_title(p.content@) matches Some(t) ==> c.title@ == t,
        page_title(p.content@) is None ==> c.title@ == "第 "@ + dec(n + 1) + " 节"@,
        c.html@ == standalone(p.content@, page_dir(p.href@), images),
        !is_blank(title) ==> book_title(Some(title)) == trim(title),
        is_blank(title) ==> book_title(Some(title)) == "未命名"@,
        book_title(None) == "未命名"@,
{
}

/// A page that does nothing stays as it is; what is left of another does nothing either, unless
/// taking out what it does makes it no shorter.
pub proof fn what_quieting_leaves(html: Seq<char>)
    ensures
        is_quiet(html) ==> quieted(html) == html,
        is_quiet(quieted(html)) || without_actions(quieted(html)).len() >= quieted(html).len(),
        quieted(html).len() <= html.len(),
    decreases html.len(),
{
    if !(is_quiet(html) || without_actions(html).len() >= html.len()) {
        what_quieting_leaves(without_actions(html));
    }
}

/// A picture is put into the text where a page can show it, it is no larger than ten megabytes and
/// there is room for it.
pub proof fn which_pictures_are_taken(v: ReaderImages, subtype: Seq<char>, len: nat)
    ensures
        v.takes(subtype, len) <==> picture_mime(subtype) is Some && len <= 10485760 && len
            <= v.budget,
        v.wf() ==> total_size(v.images@) + v.budget == 67108864,
{
}

} // verus!
