//! ZIP archives: reading the central directory by hand where an archive repeats a name, and
//! deciding what a repaired archive holds.
use vstd::prelude::*;
use vstd::string::*;

use crate::ingestion::IngestionError;
use crate::opf::{
    fix_opf, fixed_opf, is_opf, items_need_fix, items_of, name_is_opf, opf_needs_fix, stays,
};
use crate::paths::{dir_of, dir_part};
use crate::text::{
    contains, dec, dec_u64, decode_lossy, ends_with, has_part, same, strs, strs_push, utf8_lossy,
};

verus! {

/// The signature of the end-of-central-directory record.
pub const EOCD_SIGNATURE: u32 = 0x0605_4b50;

/// The signature of a central directory header.
pub const HEADER_SIGNATURE: u32 = 0x0201_4b50;

/// The signature of a local file header.
pub const LOCAL_SIGNATURE: u32 = 0x0403_4b50;

/// The little-endian 16-bit number at `p`.
pub open spec fn le16(raw: Seq<u8>, p: int) -> int {
    raw[p] + 256 * raw[p + 1]
}

/// The little-endian 32-bit number at `p`.
pub open spec fn le32(raw: Seq<u8>, p: int) -> int {
    raw[p] + 256 * raw[p + 1] + 65536 * raw[p + 2] + 16777216 * raw[p + 3]
}

/// The little-endian 32-bit number at `pos`.
pub fn u32_at(raw: &Vec<u8>, pos: usize) -> (r: u32)
    requires
        pos + 4 <= raw@.len(),
    ensures
        r == le32(raw@, pos as int),
{
    let _len: usize = raw.len();
    raw[pos] as u32 + 256 * (raw[pos + 1] as u32) + 65536 * (raw[pos + 2] as u32) + 16777216 * (
    raw[pos + 3] as u32)
}

/// The little-endian 16-bit number at `pos`.
pub fn u16_at(raw: &Vec<u8>, pos: usize) -> (r: u16)
    requires
        pos + 2 <= raw@.len(),
    ensures
        r == le16(raw@, pos as int),
{
    let _len: usize = raw.len();
    raw[pos] as u16 + 256 * (raw[pos + 1] as u16)
}

// ---- the end of the central directory ----

/// The lowest place at which the end record is looked for.
pub open spec fn scan_low(len: int) -> int {
    if len > 66000 {
        len - 66000
    } else {
        0
    }
}

/// The last place in `low..=p` where the end record begins.
pub open spec fn eocd_below(raw: Seq<u8>, p: int, low: int) -> Option<int>
    decreases p - low + 1,
{
    if p < low {
        None
    } else if le32(raw, p) == EOCD_SIGNATURE {
        Some(p)
    } else {
        eocd_below(raw, p - 1, low)
    }
}

/// Where the end record begins: the last place in the scanned tail that has its
/// signature and leaves room for it.
pub open spec fn eocd_of(raw: Seq<u8>) -> Option<int> {
    eocd_below(raw, raw.len() - 22, scan_low(raw.len() as int))
}

/// The scan finds the last signature in the tail, and finds one exactly when there is one.
pub proof fn eocd_is_last(raw: Seq<u8>, p: int, low: int)
    ensures
        match eocd_below(raw, p, low) {
            Some(q) => low <= q <= p && le32(raw, q) == EOCD_SIGNATURE && (forall|k: int|
                q < k <= p ==> #[trigger] le32(raw, k) != EOCD_SIGNATURE),
            None => forall|k: int| low <= k <= p ==> #[trigger] le32(raw, k) != EOCD_SIGNATURE,
        },
    decreases p - low + 1,
{
    if p >= low && le32(raw, p) != EOCD_SIGNATURE {
        eocd_is_last(raw, p - 1, low);
    }
}

fn find_eocd(raw: &Vec<u8>) -> (r: Option<usize>)
    ensures
        match r {
            Some(p) => eocd_of(raw@) == Some(p as int) && p + 22 <= raw@.len(),
            None => eocd_of(raw@) is None,
        },
{
    let len: usize = raw.len();
    if len < 22 {
        return None;
    }
    let low: usize = if len > 66000 {
        len - 66000
    } else {
        0
    };
    let mut p: usize = len - 22;
    while p > low
        invariant
            low <= p <= len - 22,
            len == raw@.len(),
            low == scan_low(len as int),
            eocd_of(raw@) == eocd_below(raw@, p as int, low as int),
        decreases p,
    {
        if u32_at(raw, p) == EOCD_SIGNATURE {
            return Some(p);
        }
        p -= 1;
    }
    if u32_at(raw, p) == EOCD_SIGNATURE {
        Some(p)
    } else {
        assert(eocd_below(raw@, p - 1, low as int) is None);
        None
    }
}

// ---- the central directory ----

/// One file of the central directory.
pub struct CdEntry {
    /// The file's name.
    pub name: String,
    /// The compression method: 0 is stored, 8 is deflated.
    pub method: u16,
    /// The size of the compressed data.
    pub csize: u32,
    /// Where the local header begins.
    pub lho: u32,
}

/// One file of the central directory.
pub struct CdView {
    pub name: Seq<char>,
    pub method: u16,
    pub csize: u32,
    pub lho: u32,
}

impl View for CdEntry {
    type V = CdView;

    open spec fn view(&self) -> CdView {
        CdView { name: self.name@, method: self.method, csize: self.csize, lho: self.lho }
    }
}

/// The views of a list of entries.
pub open spec fn cd_views(v: Seq<CdEntry>) -> Seq<CdView> {
    v.map_values(|e: CdEntry| e@)
}

/// The names of a list of entries.
pub open spec fn cd_names(v: Seq<CdView>) -> Seq<Seq<char>> {
    v.map_values(|e: CdView| e.name)
}

/// Whether a header lies at `p`.
pub open spec fn header_ok(raw: Seq<u8>, p: int) -> bool {
    p + 46 <= raw.len() && le32(raw, p) == HEADER_SIGNATURE
}

/// Where the name of the header at `p` ends.
pub open spec fn name_end(raw: Seq<u8>, p: int) -> int {
    p + 46 + le16(raw, p + 28)
}

/// The entry that the header at `p` describes.
pub open spec fn header_entry(raw: Seq<u8>, p: int) -> CdView {
    CdView {
        name: utf8_lossy(raw.subrange(p + 46, name_end(raw, p))),
        method: le16(raw, p + 10) as u16,
        csize: le32(raw, p + 20) as u32,
        lho: le32(raw, p + 42) as u32,
    }
}

/// Where the header behind the one at `p` begins.
pub open spec fn next_header(raw: Seq<u8>, p: int) -> int {
    name_end(raw, p) + le16(raw, p + 30) + le16(raw, p + 32)
}

/// The entries of the `n` headers from `p` on, or what is wrong with the first bad one.
pub open spec fn read_headers(raw: Seq<u8>, p: int, n: nat) -> Result<Seq<CdView>, Seq<char>>
    decreases n,
{
    if n == 0 {
        Ok(Seq::empty())
    } else if !header_ok(raw, p) {
        Err("EPUB 解析失败: 中央目录损坏"@)
    } else if name_end(raw, p) > raw.len() {
        Err("EPUB 解析失败: 中央目录越界"@)
    } else {
        match read_headers(raw, next_header(raw, p), (n - 1) as nat) {
            Ok(rest) => Ok(seq![header_entry(raw, p)] + rest),
            Err(e) => Err(e),
        }
    }
}

/// The files of a directory: of entries with one name the first, and no entry that has no
/// name or is a folder.
pub open spec fn files_of(entries: Seq<CdView>) -> Seq<CdView>
    decreases entries.len(),
{
    if entries.len() == 0 {
        Seq::empty()
    } else {
        let before = files_of(entries.drop_last());
        let e = entries.last();
        if e.name.len() == 0 || "/"@.is_suffix_of(e.name) || cd_names(before).contains(e.name) {
            before
        } else {
            before.push(e)
        }
    }
}

/// The files that the central directory of `raw` lists, or why it cannot be read.
pub open spec fn directory_of(raw: Seq<u8>) -> Result<Seq<CdView>, Seq<char>> {
    match eocd_of(raw) {
        None => Err("EPUB 解析失败: 未找到 zip 中央目录"@),
        Some(p) => match read_headers(raw, le32(raw, p + 16), le16(raw, p + 10) as nat) {
            Err(e) => Err(e),
            Ok(entries) => if files_of(entries).len() == 0 {
                Err("EPUB 解析失败: 无有效条目"@)
            } else {
                Ok(files_of(entries))
            },
        },
    }
}

/// Every name that is left is a file's, and no two are the same.
pub proof fn files_have_distinct_names(entries: Seq<CdView>)
    ensures
        cd_names(files_of(entries)).no_duplicates(),
        forall|i: int|
            0 <= i < files_of(entries).len() ==> {
                let n = (#[trigger] files_of(entries)[i]).name;
                n.len() > 0 && !"/"@.is_suffix_of(n)
            },
    decreases entries.len(),
{
    if entries.len() > 0 {
        files_have_distinct_names(entries.drop_last());
        let before = files_of(entries.drop_last());
        let now = files_of(entries);
        if now != before {
            let e = entries.last();
            assert(cd_names(now) =~= cd_names(before).push(e.name));
            assert forall|i: int, j: int|
                0 <= i < cd_names(now).len() && 0 <= j < cd_names(now).len() && i
                    != j implies cd_names(now)[i] != cd_names(now)[j] by {
                if i < before.len() && j < before.len() {
                    assert(cd_names(before)[i] != cd_names(before)[j]);
                } else if i < before.len() {
                    assert(cd_names(before).contains(cd_names(before)[i]));
                } else {
                    assert(cd_names(before).contains(cd_names(before)[j]));
                }
            }
            assert forall|i: int| 0 <= i < now.len() implies {
                let n = (#[trigger] now[i]).name;
                n.len() > 0 && !"/"@.is_suffix_of(n)
            } by {
                if i < before.len() {
                    assert(now[i] == before[i]);
                }
            }
        }
    }
}

/// The bytes `from..to` of `raw`.
fn slice_of(raw: &Vec<u8>, from: usize, to: usize) -> (r: Vec<u8>)
    requires
        from <= to <= raw@.len(),
    ensures
        r@ == raw@.subrange(from as int, to as int),
{
    let mut r: Vec<u8> = Vec::new();
    let mut i: usize = from;
    while i < to
        invariant
            from <= i <= to <= raw@.len(),
            r@ == raw@.subrange(from as int, i as int),
        decreases to - i,
    {
        r.push(raw[i]);
        i += 1;
        assert(r@ =~= raw@.subrange(from as int, i as int));
    }
    r
}

fn name_listed(entries: &Vec<CdEntry>, name: &str) -> (r: bool)
    ensures
        r == cd_names(cd_views(entries@)).contains(name@),
{
    let ghost names = cd_names(cd_views(entries@));
    let mut i: usize = 0;
    while i < entries.len()
        invariant
            i <= entries@.len(),
            names == cd_names(cd_views(entries@)),
            forall|k: int| 0 <= k < i ==> names[k] != name@,
        decreases entries@.len() - i,
    {
        assert(names[i as int] == entries@[i as int].name@);
        if same(&entries[i].name, name) {
            return true;
        }
        i += 1;
    }
    false
}

/// What `read_headers` gives when `done` is already read.
pub open spec fn after(
    done: Seq<CdView>,
    rest: Result<Seq<CdView>, Seq<char>>,
) -> Result<Seq<CdView>, Seq<char>> {
    match rest {
        Ok(r) => Ok(done + r),
        Err(e) => Err(e),
    }
}

/// The files that the central directory lists.
pub fn central_directory(raw: &Vec<u8>) -> (r: Result<Vec<CdEntry>, IngestionError>)
    ensures
        match r {
            Ok(v) => directory_of(raw@) == Ok::<Seq<CdView>, Seq<char>>(cd_views(v@)),
            Err(e) => e is EpubError && directory_of(raw@) == Err::<Seq<CdView>, Seq<char>>(
                e->EpubError_0@,
            ),
        },
{
    let eocd: usize = match find_eocd(raw) {
        Some(p) => p,
        None => {
            return Err(
                IngestionError::EpubError("EPUB 解析失败: 未找到 zip 中央目录".to_owned()),
            );
        },
    };
    let size: usize = raw.len();
    let len: u64 = size as u64;
    let count: u16 = u16_at(raw, eocd + 10);
    let start: u32 = u32_at(raw, eocd + 16);
    let ghost whole = read_headers(raw@, start as int, count as nat);
    let ghost mut done: Seq<CdView> = Seq::empty();
    let mut entries: Vec<CdEntry> = Vec::new();
    let mut p: u64 = start as u64;
    let mut i: u16 = 0;
    proof {
        match whole {
            Ok(w) => {
                assert(done + w =~= w);
            },
            Err(_) => {},
        }
        assert(cd_views(entries@) =~= files_of(done));
    }
    while i < count
        invariant
            i <= count,
            size == raw@.len(),
            len == size,
            p <= 0xffff_ffff + i * 196653,
            whole == after(done, read_headers(raw@, p as int, (count - i) as nat)),
            cd_views(entries@) == files_of(done),
            directory_of(raw@) == (match whole {
                Err(e) => Err::<Seq<CdView>, Seq<char>>(e),
                Ok(all) => if files_of(all).len() == 0 {
                    Err("EPUB 解析失败: 无有效条目"@)
                } else {
                    Ok(files_of(all))
                },
            }),
        decreases count - i,
    {
        if p + 46 > len {
            return Err(IngestionError::EpubError("EPUB 解析失败: 中央目录损坏".to_owned()));
        }
        let at: usize = p as usize;
        if u32_at(raw, at) != HEADER_SIGNATURE {
            return Err(IngestionError::EpubError("EPUB 解析失败: 中央目录损坏".to_owned()));
        }
        let method: u16 = u16_at(raw, at + 10);
        let csize: u32 = u32_at(raw, at + 20);
        let nlen: u16 = u16_at(raw, at + 28);
        let elen: u16 = u16_at(raw, at + 30);
        let clen: u16 = u16_at(raw, at + 32);
        let lho: u32 = u32_at(raw, at + 42);
        if p + 46 + nlen as u64 > len {
            return Err(IngestionError::EpubError("EPUB 解析失败: 中央目录越界".to_owned()));
        }
        let bytes = slice_of(raw, at + 46, at + 46 + nlen as usize);
        let name = decode_lossy(&bytes);
        let ghost e = header_entry(raw@, p as int);
        let ghost was = done;
        proof {
            assert(name@ == e.name);
            done = was.push(e);
            assert(done.drop_last() =~= was);
            let rest = read_headers(raw@, next_header(raw@, p as int), (count - i - 1) as nat);
            match rest {
                Ok(r) => {
                    assert(done + r =~= was + (seq![e] + r));
                },
                Err(_) => {},
            }
        }
        p = p + 46 + nlen as u64 + elen as u64 + clen as u64;
        i += 1;
        if name.as_str().is_empty() || ends_with(&name, "/") || name_listed(&entries, &name) {
            continue;
        }
        let ghost listed = entries@;
        let entry = CdEntry { name, method, csize, lho };
        assert(entry@ == e);
        entries.push(entry);
        assert(cd_views(entries@) =~= cd_views(listed).push(e));
    }
    proof {
        assert(done + Seq::<CdView>::empty() =~= done);
    }
    if entries.len() == 0 {
        assert(files_of(done).len() == 0);
        return Err(IngestionError::EpubError("EPUB 解析失败: 无有效条目".to_owned()));
    }
    assert(cd_views(entries@).len() == entries@.len());
    Ok(entries)
}

// ---- the data of an entry ----

/// What `flate2` makes of a deflated stream: the data, or the text of its error.
pub uninterp spec fn inflated(data: Seq<u8>) -> Result<Seq<u8>, Seq<char>>;

/// `flate2::read::DeflateDecoder`, read to its end. The result is named; nothing is
/// claimed of the format.
#[verifier::external_body]
fn inflate(data: &Vec<u8>) -> (r: Result<Vec<u8>, String>)
    ensures
        match r {
            Ok(v) => inflated(data@) == Ok::<Seq<u8>, Seq<char>>(v@),
            Err(e) => inflated(data@) == Err::<Seq<u8>, Seq<char>>(e@),
        },
{
    let mut out: Vec<u8> = Vec::new();
    let mut decoder = flate2::read::DeflateDecoder::new(data.as_slice());
    match std::io::Read::read_to_end(&mut decoder, &mut out) {
        Ok(_) => Ok(out),
        Err(e) => Err(e.to_string()),
    }
}

/// Where the data behind the local header at `h` begins.
pub open spec fn data_start(raw: Seq<u8>, h: int) -> int {
    h + 30 + le16(raw, h + 26) + le16(raw, h + 28)
}

/// The compressed bytes of an entry, or why they cannot be had.
pub open spec fn packed_bytes(raw: Seq<u8>, e: CdView) -> Result<Seq<u8>, Seq<char>> {
    let h = e.lho as int;
    if e.method != 0 && e.method != 8 {
        Err(
            "EPUB 修复失败: 条目 "@ + e.name + " 使用了不支持的压缩方式 ("@ + dec(e.method as nat)
                + ")"@,
        )
    } else if h + 30 > raw.len() || le32(raw, h) != LOCAL_SIGNATURE {
        Err("EPUB 解析失败: 本地文件头损坏"@)
    } else if data_start(raw, h) + e.csize > raw.len() {
        Err("EPUB 解析失败: 条目数据越界"@)
    } else {
        Ok(raw.subrange(data_start(raw, h), data_start(raw, h) + e.csize))
    }
}

/// The bytes of an entry, or why they cannot be had.
pub open spec fn entry_bytes(raw: Seq<u8>, e: CdView) -> Result<Seq<u8>, Seq<char>> {
    match packed_bytes(raw, e) {
        Err(m) => Err(m),
        Ok(b) => if e.method == 0 {
            Ok(b)
        } else {
            match inflated(b) {
                Ok(v) => Ok(v),
                Err(m) => Err("条目 "@ + e.name + " 解压失败: "@ + m),
            }
        },
    }
}

/// The compressed bytes of an entry.
pub fn entry_data(raw: &Vec<u8>, e: &CdEntry) -> (r: Result<Vec<u8>, IngestionError>)
    ensures
        match r {
            Ok(v) => packed_bytes(raw@, e@) == Ok::<Seq<u8>, Seq<char>>(v@),
            Err(x) => x is EpubError && packed_bytes(raw@, e@) == Err::<Seq<u8>, Seq<char>>(
                x->EpubError_0@,
            ),
        },
{
    if e.method != 0 && e.method != 8 {
        let m = "EPUB 修复失败: 条目 ".to_owned().concat(&e.name).concat(
            " 使用了不支持的压缩方式 (",
        ).concat(&dec_u64(e.method as u64)).concat(")");
        return Err(IngestionError::EpubError(m));
    }
    let size: usize = raw.len();
    let len: u64 = size as u64;
    if e.lho as u64 + 30 > len || u32_at(raw, e.lho as usize) != LOCAL_SIGNATURE {
        return Err(IngestionError::EpubError("EPUB 解析失败: 本地文件头损坏".to_owned()));
    }
    let h: usize = e.lho as usize;
    let nlen: u16 = u16_at(raw, h + 26);
    let elen: u16 = u16_at(raw, h + 28);
    let start: u64 = h as u64 + 30 + nlen as u64 + elen as u64;
    if start + e.csize as u64 > len {
        return Err(IngestionError::EpubError("EPUB 解析失败: 条目数据越界".to_owned()));
    }
    Ok(slice_of(raw, start as usize, (start + e.csize as u64) as usize))
}

// ---- what a repaired archive holds ----

/// One file of a repaired archive.
#[derive(Debug)]
pub struct RebuiltEntry {
    pub name: String,
    /// The compression method: 0 is stored, 8 is deflated.
    pub method: u16,
    pub data: Vec<u8>,
}

/// One file of a repaired archive.
pub struct RebuiltView {
    pub name: Seq<char>,
    pub method: u16,
    pub data: Seq<u8>,
}

impl View for RebuiltEntry {
    type V = RebuiltView;

    open spec fn view(&self) -> RebuiltView {
        RebuiltView { name: self.name@, method: self.method, data: self.data@ }
    }
}

/// The views of a list of files.
pub open spec fn rebuilt_views(v: Seq<RebuiltEntry>) -> Seq<RebuiltView> {
    v.map_values(|e: RebuiltEntry| e@)
}

/// The bytes of a file in the repaired archive: a package document is repaired, every
/// other file stays as it is.
pub open spec fn repaired_bytes(
    name: Seq<char>,
    data: Seq<u8>,
    valid: Seq<Seq<char>>,
) -> Seq<u8> {
    if is_opf(name) {
        vstd::utf8::encode_utf8(fixed_opf(utf8_lossy(data), valid, dir_part(name)))
    } else {
        data
    }
}

/// The bytes of a file in the repaired archive.
pub fn repair_entry(name: &str, data: Vec<u8>, valid: &Vec<String>) -> (r: Vec<u8>)
    ensures
        r@ == repaired_bytes(name@, data@, strs(valid@)),
{
    if name_is_opf(name) {
        let content = decode_lossy(&data);
        let dir = dir_of(name);
        let fixed = fix_opf(&content, valid, &dir);
        fixed.as_str().as_bytes_vec()
    } else {
        data
    }
}

/// The file that an entry becomes, or why it cannot be had.
pub open spec fn rebuild_one(
    raw: Seq<u8>,
    e: CdView,
    valid: Seq<Seq<char>>,
) -> Result<RebuiltView, Seq<char>> {
    match entry_bytes(raw, e) {
        Err(m) => Err(m),
        Ok(b) => Ok(
            RebuiltView {
                name: e.name,
                method: e.method,
                data: repaired_bytes(e.name, b, valid),
            },
        ),
    }
}

/// The files that the first `n` entries become, or why the first bad one cannot be had.
pub open spec fn rebuild_first(
    raw: Seq<u8>,
    entries: Seq<CdView>,
    valid: Seq<Seq<char>>,
    n: nat,
) -> Result<Seq<RebuiltView>, Seq<char>>
    decreases n,
{
    if n == 0 {
        Ok(Seq::empty())
    } else {
        match rebuild_first(raw, entries, valid, (n - 1) as nat) {
            Err(m) => Err(m),
            Ok(done) => match rebuild_one(raw, entries[n - 1], valid) {
                Err(m) => Err(m),
                Ok(f) => Ok(done.push(f)),
            },
        }
    }
}

/// The files of the archive that is rebuilt from the bytes of a faulty one.
pub open spec fn rebuilt_from(raw: Seq<u8>) -> Result<Seq<RebuiltView>, Seq<char>> {
    match directory_of(raw) {
        Err(m) => Err(m),
        Ok(entries) => rebuild_first(raw, entries, cd_names(entries), entries.len()),
    }
}

proof fn rebuild_error_stays(
    raw: Seq<u8>,
    entries: Seq<CdView>,
    valid: Seq<Seq<char>>,
    k: nat,
    n: nat,
)
    requires
        k <= n,
        rebuild_first(raw, entries, valid, k) is Err,
    ensures
        rebuild_first(raw, entries, valid, n) == rebuild_first(raw, entries, valid, k),
    decreases n,
{
    if k < n {
        rebuild_error_stays(raw, entries, valid, k, (n - 1) as nat);
    }
}

/// Reads the central directory of a faulty archive and gives the files of the repaired
/// one: of files with one name the first, no folders, and package documents repaired.
pub fn rebuild_via_central_directory(raw: &Vec<u8>) -> (r: Result<
    Vec<RebuiltEntry>,
    IngestionError,
>)
    ensures
        match r {
            Ok(v) => rebuilt_from(raw@) == Ok::<Seq<RebuiltView>, Seq<char>>(rebuilt_views(v@)),
            Err(x) => x is EpubError && rebuilt_from(raw@) == Err::<Seq<RebuiltView>, Seq<char>>(
                x->EpubError_0@,
            ),
        },
{
    let entries = match central_directory(raw) {
        Ok(v) => v,
        Err(e) => {
            return Err(e);
        },
    };
    let ghost views = cd_views(entries@);
    let ghost names = cd_names(views);
    let mut valid: Vec<String> = Vec::new();
    let mut k: usize = 0;
    while k < entries.len()
        invariant
            k <= entries@.len(),
            views == cd_views(entries@),
            names == cd_names(views),
            strs(valid@) == names.take(k as int),
        decreases entries@.len() - k,
    {
        proof {
            strs_push(valid@, entries@[k as int].name);
        }
        valid.push(entries[k].name.clone());
        k += 1;
        assert(strs(valid@) =~= names.take(k as int));
    }
    assert(strs(valid@) =~= names);
    let mut out: Vec<RebuiltEntry> = Vec::new();
    let mut i: usize = 0;
    assert(rebuilt_views(out@) =~= Seq::<RebuiltView>::empty());
    while i < entries.len()
        invariant
            i <= entries@.len(),
            views == cd_views(entries@),
            strs(valid@) == names,
            rebuilt_from(raw@) == rebuild_first(raw@, views, names, views.len()),
            rebuild_first(raw@, views, names, i as nat) == Ok::<Seq<RebuiltView>, Seq<char>>(
                rebuilt_views(out@),
            ),
        decreases entries@.len() - i,
    {
        let ghost e = views[i as int];
        assert(e == entries@[i as int]@);
        let packed = match entry_data(raw, &entries[i]) {
            Ok(b) => b,
            Err(x) => {
                proof {
                    rebuild_error_stays(raw@, views, names, (i + 1) as nat, views.len());
                }
                return Err(x);
            },
        };
        let plain = if entries[i].method == 0 {
            packed
        } else {
            match inflate(&packed) {
                Ok(b) => b,
                Err(m) => {
                    proof {
                        rebuild_error_stays(raw@, views, names, (i + 1) as nat, views.len());
                    }
                    let text = "条目 ".to_owned().concat(&entries[i].name).concat(
                        " 解压失败: ",
                    ).concat(&m);
                    return Err(IngestionError::EpubError(text));
                },
            }
        };
        let data = repair_entry(&entries[i].name, plain, &valid);
        let f = RebuiltEntry { name: entries[i].name.clone(), method: entries[i].method, data };
        let ghost was = out@;
        out.push(f);
        assert(rebuilt_views(out@) =~= rebuilt_views(was).push(f@));
        i += 1;
    }
    Ok(out)
}

// ---- archives that can be opened ----

/// An entry of an archive, without its data.
#[derive(Debug)]
pub struct ZipItem {
    pub name: String,
    pub is_dir: bool,
    /// The compression method: 0 is stored, 8 is deflated.
    pub method: u16,
}

/// An entry of an archive, without its data.
pub struct ItemView {
    pub name: Seq<char>,
    pub is_dir: bool,
    pub method: u16,
}

impl View for ZipItem {
    type V = ItemView;

    open spec fn view(&self) -> ItemView {
        ItemView { name: self.name@, is_dir: self.is_dir, method: self.method }
    }
}

/// What an archive lists: whether a name is repeated, and each entry, or why it cannot be had.
#[derive(Debug)]
pub struct ZipListing {
    pub repeats: bool,
    pub items: Vec<Result<ZipItem, String>>,
}

/// The text of an error, or the view of an entry.
pub open spec fn item_view(r: Result<ZipItem, String>) -> Result<ItemView, Seq<char>> {
    match r {
        Ok(i) => Ok(i@),
        Err(e) => Err(e@),
    }
}

/// The views of the entries that an archive lists.
pub open spec fn item_views(v: Seq<Result<ZipItem, String>>) -> Seq<Result<ItemView, Seq<char>>> {
    v.map_values(|r: Result<ZipItem, String>| item_view(r))
}

/// What `zip` lists of an archive: whether a name is repeated, and its entries. The text of the
/// error where it cannot be opened.
pub uninterp spec fn zip_listing(raw: Seq<u8>) -> Result<
    (bool, Seq<Result<ItemView, Seq<char>>>),
    Seq<char>,
>;

/// The text of an entry of an archive, or the text of the error.
pub uninterp spec fn zip_text(raw: Seq<u8>, i: int) -> Result<Seq<char>, Seq<char>>;

/// The data of an entry of an archive, or the text of the error.
pub uninterp spec fn zip_data(raw: Seq<u8>, i: int) -> Result<Seq<u8>, Seq<char>>;

/// `zip::ZipArchive::new`, `zip::ZipArchive::has_duplicate_names`, and of each entry what
/// `zip::ZipArchive::by_index` gives. What the bytes hold is left to the name.
#[verifier::external_body]
#[allow(deprecated)]
fn list_zip(raw: &Vec<u8>) -> (r: Result<ZipListing, String>)
    ensures
        zip_listing(raw@) == (match r {
            Ok(l) => Ok::<(bool, Seq<Result<ItemView, Seq<char>>>), Seq<char>>(
                (l.repeats, item_views(l.items@)),
            ),
            Err(e) => Err(e@),
        }),
{
    let bytes = std::io::Cursor::new(raw.as_slice());
    let mut archive = zip::ZipArchive::new(bytes).map_err(|e| e.to_string())?;
    let repeats = archive.has_duplicate_names();
    let places = 0..archive.len();
    let items = places.map(|i| {
        let f = archive.by_index(i).map_err(|e| e.to_string())?;
        let name = f.name().map_err(|e| e.to_string())?.into_owned();
        Ok(ZipItem { name, is_dir: f.is_dir(), method: f.compression().to_u16() })
    }).collect();
    Ok(ZipListing { repeats, items })
}

/// `zip::ZipArchive::by_index`, the entry read to its end as UTF-8. What the bytes hold is
/// left to the name.
#[verifier::external_body]
fn read_zip_text(raw: &Vec<u8>, i: usize) -> (r: Result<String, String>)
    ensures
        zip_text(raw@, i as int) == (match r {
            Ok(t) => Ok::<Seq<char>, Seq<char>>(t@),
            Err(e) => Err(e@),
        }),
{
    let bytes = std::io::Cursor::new(raw.as_slice());
    let mut archive = zip::ZipArchive::new(bytes).map_err(|e| e.to_string())?;
    let mut f = archive.by_index(i).map_err(|e| e.to_string())?;
    let mut out = String::new();
    std::io::Read::read_to_string(&mut f, &mut out).map_err(|e| e.to_string())?;
    Ok(out)
}

/// `zip::ZipArchive::by_index`, the entry read to its end. What the bytes hold is left to the
/// name.
#[verifier::external_body]
fn read_zip_data(raw: &Vec<u8>, i: usize) -> (r: Result<Vec<u8>, String>)
    ensures
        zip_data(raw@, i as int) == (match r {
            Ok(d) => Ok::<Seq<u8>, Seq<char>>(d@),
            Err(e) => Err(e@),
        }),
{
    let bytes = std::io::Cursor::new(raw.as_slice());
    let mut archive = zip::ZipArchive::new(bytes).map_err(|e| e.to_string())?;
    let mut f = archive.by_index(i).map_err(|e| e.to_string())?;
    let mut out: Vec<u8> = Vec::new();
    std::io::Read::read_to_end(&mut f, &mut out).map_err(|e| e.to_string())?;
    Ok(out)
}

/// The names of the files that an archive lists.
pub open spec fn listed_names(items: Seq<Result<ItemView, Seq<char>>>) -> Seq<Seq<char>>
    decreases items.len(),
{
    if items.len() == 0 {
        Seq::empty()
    } else {
        let before = listed_names(items.drop_last());
        match items.last() {
            Ok(i) => if i.is_dir {
                before
            } else {
                before.push(i.name)
            },
            Err(_) => before,
        }
    }
}

/// The names of the files that an archive lists.
pub fn list_names(items: &Vec<Result<ZipItem, String>>) -> (r: Vec<String>)
    ensures
        strs(r@) == listed_names(item_views(items@)),
{
    let ghost all = item_views(items@);
    let mut out: Vec<String> = Vec::new();
    let mut i: usize = 0;
    assert(strs(out@) =~= listed_names(all.take(0)));
    while i < items.len()
        invariant
            i <= items@.len(),
            all == item_views(items@),
            strs(out@) == listed_names(all.take(i as int)),
        decreases items@.len() - i,
    {
        assert(all.take(i + 1).drop_last() =~= all.take(i as int));
        assert(all.take(i + 1).last() == item_view(items@[i as int]));
        match &items[i] {
            Ok(f) => {
                if !f.is_dir {
                    proof {
                        strs_push(out@, f.name);
                    }
                    out.push(f.name.clone());
                }
            },
            Err(_) => {},
        }
        i += 1;
    }
    assert(all.take(items@.len() as int) =~= all);
    out
}

/// The names and the texts of the package documents among the first `n` entries; the text of
/// the first error.
pub open spec fn package_texts(
    raw: Seq<u8>,
    items: Seq<Result<ItemView, Seq<char>>>,
    n: nat,
) -> Result<Seq<(Seq<char>, Seq<char>)>, Seq<char>>
    decreases n,
{
    if n == 0 {
        Ok(Seq::empty())
    } else {
        match package_texts(raw, items, (n - 1) as nat) {
            Err(e) => Err(e),
            Ok(done) => match items[n - 1] {
                Err(e) => Err(e),
                Ok(f) => if is_opf(f.name) {
                    match zip_text(raw, n - 1) {
                        Err(e) => Err(e),
                        Ok(t) => Ok(done.push((f.name, t))),
                    }
                } else {
                    Ok(done)
                },
            },
        }
    }
}

proof fn package_error_stays(
    raw: Seq<u8>,
    items: Seq<Result<ItemView, Seq<char>>>,
    k: nat,
    n: nat,
)
    requires
        k <= n,
        package_texts(raw, items, k) is Err,
    ensures
        package_texts(raw, items, n) == package_texts(raw, items, k),
    decreases n,
{
    if k < n {
        package_error_stays(raw, items, k, (n - 1) as nat);
    }
}

/// The characters of the names and the texts of package documents.
pub open spec fn package_views(v: Seq<(String, String)>) -> Seq<(Seq<char>, Seq<char>)> {
    v.map_values(|p: (String, String)| (p.0@, p.1@))
}

fn read_packages(raw: &Vec<u8>, items: &Vec<Result<ZipItem, String>>) -> (r: Result<
    Vec<(String, String)>,
    String,
>)
    ensures
        package_texts(raw@, item_views(items@), items@.len()) == (match r {
            Ok(v) => Ok::<Seq<(Seq<char>, Seq<char>)>, Seq<char>>(package_views(v@)),
            Err(e) => Err(e@),
        }),
{
    let ghost all = item_views(items@);
    let mut out: Vec<(String, String)> = Vec::new();
    let mut i: usize = 0;
    assert(package_views(out@) =~= Seq::<(Seq<char>, Seq<char>)>::empty());
    while i < items.len()
        invariant
            i <= items@.len(),
            all == item_views(items@),
            package_texts(raw@, all, i as nat) == Ok::<Seq<(Seq<char>, Seq<char>)>, Seq<char>>(
                package_views(out@),
            ),
        decreases items@.len() - i,
    {
        assert(all[i as int] == item_view(items@[i as int]));
        match &items[i] {
            Err(e) => {
                proof {
                    package_error_stays(raw@, all, (i + 1) as nat, items@.len());
                }
                return Err(e.as_str().to_owned());
            },
            Ok(f) => {
                if name_is_opf(&f.name) {
                    match read_zip_text(raw, i) {
                        Ok(t) => {
                            let ghost was = out@;
                            let name = f.name.clone();
                            out.push((name, t));
                            assert(package_views(out@) =~= package_views(was).push((name@, t@)));
                        },
                        Err(e) => {
                            proof {
                                package_error_stays(raw@, all, (i + 1) as nat, items@.len());
                            }
                            return Err(e);
                        },
                    }
                }
            },
        }
        i += 1;
    }
    Ok(out)
}

/// Whether some package document of an archive with the files `valid` needs the repair. `opfs`
/// holds the names and the texts of the package documents.
pub open spec fn archive_faulty(
    valid: Seq<Seq<char>>,
    opfs: Seq<(Seq<char>, Seq<char>)>,
) -> bool {
    exists|i: int|
        0 <= i < opfs.len() && items_need_fix(
            items_of((#[trigger] opfs[i]).1),
            valid,
            dir_part(opfs[i].0),
        )
}

/// Whether some package document of an archive with the files `valid` needs the repair.
pub fn archive_needs_fix(valid: &Vec<String>, opfs: &Vec<(String, String)>) -> (r: bool)
    ensures
        r == archive_faulty(strs(valid@), package_views(opfs@)),
{
    let ghost all = package_views(opfs@);
    let mut i: usize = 0;
    while i < opfs.len()
        invariant
            i <= opfs@.len(),
            all == package_views(opfs@),
            forall|k: int|
                0 <= k < i ==> !items_need_fix(
                    items_of((#[trigger] all[k]).1),
                    strs(valid@),
                    dir_part(all[k].0),
                ),
        decreases opfs@.len() - i,
    {
        assert(all[i as int] == (opfs@[i as int].0@, opfs@[i as int].1@));
        let dir = dir_of(&opfs[i].0);
        if opf_needs_fix(&opfs[i].1, valid, &dir) {
            return true;
        }
        i += 1;
    }
    false
}

/// The files of the archive that is rebuilt from the first `n` entries of one that could be
/// opened; the text of the first error.
pub open spec fn rebuilt_archive(
    raw: Seq<u8>,
    items: Seq<Result<ItemView, Seq<char>>>,
    n: nat,
) -> Result<Seq<RebuiltView>, Seq<char>>
    decreases n,
{
    if n == 0 {
        Ok(Seq::empty())
    } else {
        match rebuilt_archive(raw, items, (n - 1) as nat) {
            Err(e) => Err(e),
            Ok(done) => match items[n - 1] {
                Err(e) => Err("EPUB 解析失败: "@ + e),
                Ok(f) => if f.is_dir || f.name.len() == 0 {
                    Ok(done)
                } else {
                    match zip_data(raw, n - 1) {
                        Err(e) => Err("读取条目 "@ + f.name + " 失败: "@ + e),
                        Ok(d) => Ok(
                            done.push(
                                RebuiltView {
                                    name: f.name,
                                    method: f.method,
                                    data: repaired_bytes(f.name, d, listed_names(items)),
                                },
                            ),
                        ),
                    }
                },
            },
        }
    }
}

proof fn archive_error_stays(
    raw: Seq<u8>,
    items: Seq<Result<ItemView, Seq<char>>>,
    k: nat,
    n: nat,
)
    requires
        k <= n,
        rebuilt_archive(raw, items, k) is Err,
    ensures
        rebuilt_archive(raw, items, n) == rebuilt_archive(raw, items, k),
    decreases n,
{
    if k < n {
        archive_error_stays(raw, items, k, (n - 1) as nat);
    }
}

/// The files of the archive that is rebuilt from one that could be opened: no folders, and
/// package documents repaired.
pub fn rebuild_from_archive(raw: &Vec<u8>, items: &Vec<Result<ZipItem, String>>) -> (r: Result<
    Vec<RebuiltEntry>,
    IngestionError,
>)
    ensures
        match r {
            Ok(v) => rebuilt_archive(raw@, item_views(items@), items@.len()) == Ok::<
                Seq<RebuiltView>,
                Seq<char>,
            >(rebuilt_views(v@)),
            Err(x) => x is EpubError && rebuilt_archive(raw@, item_views(items@), items@.len())
                == Err::<Seq<RebuiltView>, Seq<char>>(x->EpubError_0@),
        },
{
    let ghost all = item_views(items@);
    let valid = list_names(items);
    let mut out: Vec<RebuiltEntry> = Vec::new();
    let mut i: usize = 0;
    assert(rebuilt_views(out@) =~= Seq::<RebuiltView>::empty());
    while i < items.len()
        invariant
            i <= items@.len(),
            all == item_views(items@),
            strs(valid@) == listed_names(all),
            rebuilt_archive(raw@, all, i as nat) == Ok::<Seq<RebuiltView>, Seq<char>>(
                rebuilt_views(out@),
            ),
        decreases items@.len() - i,
    {
        assert(all[i as int] == item_view(items@[i as int]));
        match &items[i] {
            Err(e) => {
                proof {
                    archive_error_stays(raw@, all, (i + 1) as nat, items@.len());
                }
                return Err(IngestionError::EpubError("EPUB 解析失败: ".to_owned().concat(e)));
            },
            Ok(f) => {
                if !f.is_dir && !f.name.as_str().is_empty() {
                    match read_zip_data(raw, i) {
                        Ok(plain) => {
                            let data = repair_entry(&f.name, plain, &valid);
                            let entry = RebuiltEntry { name: f.name.clone(), method: f.method, data };
                            let ghost was = out@;
                            out.push(entry);
                            assert(rebuilt_views(out@) =~= rebuilt_views(was).push(entry@));
                        },
                        Err(e) => {
                            proof {
                                archive_error_stays(raw@, all, (i + 1) as nat, items@.len());
                            }
                            let text = "读取条目 ".to_owned().concat(&f.name).concat(
                                " 失败: ",
                            ).concat(&e);
                            return Err(IngestionError::EpubError(text));
                        },
                    }
                }
            },
        }
        i += 1;
    }
    Ok(out)
}

/// What follows from the message of an archive that a strict reader cannot open: the
/// central directory is read by hand where a name is repeated, and the archive is given
/// up otherwise.
pub fn after_open_failure(message: &str) -> (r: Result<(), IngestionError>)
    ensures
        match r {
            Ok(_) => has_part(message@, "Duplicate filename"@),
            Err(x) => !has_part(message@, "Duplicate filename"@) && x is EpubError
                && x->EpubError_0@ == "EPUB 解析失败（zip 结构损坏，无法自动修复）: "@ + message@,
        },
{
    if contains(message, "Duplicate filename") {
        Ok(())
    } else {
        Err(
            IngestionError::EpubError(
                "EPUB 解析失败（zip 结构损坏，无法自动修复）: ".to_owned().concat(message),
            ),
        )
    }
}

/// What becomes of the bytes of an archive: nothing where it is sound, else the files of the
/// repaired one; the text of the error where it cannot be repaired. One that repeats a name is
/// rebuilt from its central directory, one with a broken package document from its entries.
pub open spec fn mended(raw: Seq<u8>) -> Result<Option<Seq<RebuiltView>>, Seq<char>> {
    let by_directory = match rebuilt_from(raw) {
        Ok(v) => Ok(Some(v)),
        Err(e) => Err(e),
    };
    match zip_listing(raw) {
        Err(m) => if has_part(m, "Duplicate filename"@) {
            by_directory
        } else {
            Err("EPUB 解析失败（zip 结构损坏，无法自动修复）: "@ + m)
        },
        Ok((repeats, items)) => if repeats {
            by_directory
        } else {
            match package_texts(raw, items, items.len()) {
                Err(e) => Err("EPUB 解析失败: "@ + e),
                Ok(opfs) => if archive_faulty(listed_names(items), opfs) {
                    match rebuilt_archive(raw, items, items.len()) {
                        Ok(v) => Ok(Some(v)),
                        Err(e) => Err(e),
                    }
                } else {
                    Ok(None)
                },
            }
        },
    }
}

/// The files of a repaired archive, where the bytes of an archive need the repair.
pub fn sanitized(raw: &Vec<u8>) -> (r: Result<Option<Vec<RebuiltEntry>>, IngestionError>)
    ensures
        match r {
            Ok(Some(v)) => mended(raw@) == Ok::<Option<Seq<RebuiltView>>, Seq<char>>(
                Some(rebuilt_views(v@)),
            ),
            Ok(None) => mended(raw@) == Ok::<Option<Seq<RebuiltView>>, Seq<char>>(None),
            Err(x) => x is EpubError && mended(raw@) == Err::<
                Option<Seq<RebuiltView>>,
                Seq<char>,
            >(x->EpubError_0@),
        },
{
    let listing = match list_zip(raw) {
        Ok(l) => l,
        Err(m) => {
            match after_open_failure(&m) {
                Ok(_) => {},
                Err(x) => {
                    return Err(x);
                },
            }
            return match rebuild_via_central_directory(raw) {
                Ok(v) => Ok(Some(v)),
                Err(x) => Err(x),
            };
        },
    };
    if listing.repeats {
        return match rebuild_via_central_directory(raw) {
            Ok(v) => Ok(Some(v)),
            Err(x) => Err(x),
        };
    }
    assert(item_views(listing.items@).len() == listing.items@.len());
    match read_packages(raw, &listing.items) {
        Err(e) => Err(IngestionError::EpubError("EPUB 解析失败: ".to_owned().concat(&e))),
        Ok(opfs) => {
            let valid = list_names(&listing.items);
            if archive_needs_fix(&valid, &opfs) {
                match rebuild_from_archive(raw, &listing.items) {
                    Ok(v) => Ok(Some(v)),
                    Err(x) => Err(x),
                }
            } else {
                Ok(None)
            }
        },
    }
}

/// A file that is no package document comes out as it went in.
pub proof fn other_files_are_kept(name: Seq<char>, data: Seq<u8>, valid: Seq<Seq<char>>)
    requires
        !is_opf(name),
    ensures
        repaired_bytes(name, data, valid) == data,
{
}

/// A rebuilt archive lists the names of the central directory, in its order: so none
/// twice.
pub proof fn rebuilt_names_are_distinct(raw: Seq<u8>)
    requires
        rebuilt_from(raw) is Ok,
    ensures
        directory_of(raw) is Ok,
        rebuilt_from(raw)->Ok_0.map_values(|f: RebuiltView| f.name) == cd_names(
            directory_of(raw)->Ok_0,
        ),
        rebuilt_from(raw)->Ok_0.map_values(|f: RebuiltView| f.name).no_duplicates(),
{
    let entries = directory_of(raw)->Ok_0;
    rebuild_keeps_names(raw, entries, cd_names(entries), entries.len());
    let p = eocd_of(raw)->0;
    let all = read_headers(raw, le32(raw, p + 16), le16(raw, p + 10) as nat)->Ok_0;
    files_have_distinct_names(all);
    assert(cd_names(entries).take(entries.len() as int) =~= cd_names(entries));
}

proof fn rebuild_keeps_names(
    raw: Seq<u8>,
    entries: Seq<CdView>,
    valid: Seq<Seq<char>>,
    n: nat,
)
    requires
        n <= entries.len(),
        rebuild_first(raw, entries, valid, n) is Ok,
    ensures
        rebuild_first(raw, entries, valid, n)->Ok_0.map_values(|f: RebuiltView| f.name)
            == cd_names(entries).take(n as int),
    decreases n,
{
    let name = |f: RebuiltView| f.name;
    if n > 0 {
        rebuild_keeps_names(raw, entries, valid, (n - 1) as nat);
        let done = rebuild_first(raw, entries, valid, (n - 1) as nat)->Ok_0;
        let f = rebuild_one(raw, entries[n - 1], valid)->Ok_0;
        assert(done.push(f).map_values(name) =~= done.map_values(name).push(f.name));
        assert(cd_names(entries).take(n as int) =~= cd_names(entries).take(n - 1).push(
            entries[n - 1].name,
        ));
    } else {
        assert(Seq::<RebuiltView>::empty().map_values(name) =~= cd_names(entries).take(0));
    }
}

/// The two bytes of a number, the low one first.
pub open spec fn two_bytes(n: int) -> Seq<u8> {
    seq![(n % 256) as u8, (n / 256) as u8]
}

/// The four bytes of a number, the lowest first.
pub open spec fn four_bytes(n: int) -> Seq<u8> {
    two_bytes(n % 65536) + two_bytes(n / 65536)
}

/// A number is read as it was written, the low byte first.
pub proof fn numbers_are_read_as_written(raw: Seq<u8>, p: int, n: int)
    ensures
        (0 <= p && p + 2 <= raw.len() && 0 <= n < 65536 && raw.subrange(p, p + 2) == two_bytes(n))
            ==> le16(raw, p) == n,
        (0 <= p && p + 4 <= raw.len() && 0 <= n < 4294967296 && raw.subrange(p, p + 4)
            == four_bytes(n)) ==> le32(raw, p) == n,
{
    if 0 <= p && p + 2 <= raw.len() && 0 <= n < 65536 && raw.subrange(p, p + 2) == two_bytes(n) {
        assert(raw.subrange(p, p + 2)[0] == raw[p]);
        assert(raw.subrange(p, p + 2)[1] == raw[p + 1]);
    }
    if 0 <= p && p + 4 <= raw.len() && 0 <= n < 4294967296 && raw.subrange(p, p + 4) == four_bytes(
        n,
    ) {
        let s = raw.subrange(p, p + 4);
        assert(s[0] == raw[p] && s[1] == raw[p + 1] && s[2] == raw[p + 2] && s[3] == raw[p + 3]);
        let a = n % 65536;
        let b = n / 65536;
        assert(0 <= b < 65536);
        assert(four_bytes(n)[0] == (a % 256) as u8);
        assert(four_bytes(n)[1] == (a / 256) as u8);
        assert(four_bytes(n)[2] == (b % 256) as u8);
        assert(four_bytes(n)[3] == (b / 256) as u8);
    }
}

/// A central header is read as the format lays it out: the method behind ten bytes, the packed
/// size behind twenty, the lengths of the name, the extra field and the comment behind
/// twenty-eight, the place of the local header behind forty-two, then the name, the extra field
/// and the comment. The next header follows.
pub proof fn a_header_is_read_as_written(
    raw: Seq<u8>,
    p: int,
    name: Seq<u8>,
    extra: int,
    comment: int,
    method: u16,
    csize: u32,
    lho: u32,
    rest: nat,
)
    requires
        0 <= p,
        p + 46 + name.len() <= raw.len(),
        name.len() < 65536,
        0 <= extra < 65536,
        0 <= comment < 65536,
        raw.subrange(p, p + 4) == four_bytes(0x0201_4b50),
        raw.subrange(p + 10, p + 12) == two_bytes(method as int),
        raw.subrange(p + 20, p + 24) == four_bytes(csize as int),
        raw.subrange(p + 28, p + 30) == two_bytes(name.len() as int),
        raw.subrange(p + 30, p + 32) == two_bytes(extra),
        raw.subrange(p + 32, p + 34) == two_bytes(comment),
        raw.subrange(p + 42, p + 46) == four_bytes(lho as int),
        raw.subrange(p + 46, p + 46 + name.len()) == name,
    ensures
        read_headers(raw, p, rest + 1) == after(
            seq![CdView { name: utf8_lossy(name), method, csize, lho }],
            read_headers(raw, p + 46 + name.len() + extra + comment, rest),
        ),
{
    numbers_are_read_as_written(raw, p, 0x0201_4b50);
    numbers_are_read_as_written(raw, p + 10, method as int);
    numbers_are_read_as_written(raw, p + 20, csize as int);
    numbers_are_read_as_written(raw, p + 28, name.len() as int);
    numbers_are_read_as_written(raw, p + 30, extra);
    numbers_are_read_as_written(raw, p + 32, comment);
    numbers_are_read_as_written(raw, p + 42, lho as int);
}

/// A directory is read where its end record says: the number of its headers stands behind ten
/// bytes, its place behind sixteen. What comes out are the files among them.
pub proof fn a_directory_is_read_where_it_lies(
    raw: Seq<u8>,
    p: int,
    at: u32,
    count: u16,
    entries: Seq<CdView>,
)
    requires
        0 <= p,
        raw.len() - 66000 <= p,
        p + 22 <= raw.len(),
        raw.subrange(p, p + 4) == four_bytes(0x0605_4b50),
        forall|k: int| p < k <= raw.len() - 22 ==> #[trigger] le32(raw, k) != 0x0605_4b50,
        raw.subrange(p + 10, p + 12) == two_bytes(count as int),
        raw.subrange(p + 16, p + 20) == four_bytes(at as int),
        read_headers(raw, at as int, count as nat) == Ok::<Seq<CdView>, Seq<char>>(entries),
    ensures
        files_of(entries).len() > 0 ==> directory_of(raw) == Ok::<Seq<CdView>, Seq<char>>(
            files_of(entries),
        ),
        files_of(entries).len() == 0 ==> directory_of(raw) is Err,
{
    numbers_are_read_as_written(raw, p, 0x0605_4b50);
    numbers_are_read_as_written(raw, p + 10, count as int);
    numbers_are_read_as_written(raw, p + 16, at as int);
    eocd_is_last(raw, raw.len() - 22, scan_low(raw.len() as int));
    assert(scan_low(raw.len() as int) <= p);
    assert(le32(raw, p) == EOCD_SIGNATURE);
    match eocd_of(raw) {
        Some(q) => {
            if q > p {
                assert(le32(raw, q) != 0x0605_4b50);
            }
        },
        None => {},
    }
}

/// Whether entry `k` is the first with its name.
pub open spec fn is_first_named(entries: Seq<CdView>, k: int) -> bool {
    0 <= k < entries.len() && forall|j: int|
        0 <= j < k ==> (#[trigger] entries[j]).name != entries[k].name
}

/// Of the entries with one name the first counts, and every name of a file counts.
pub proof fn the_first_of_a_name_counts(entries: Seq<CdView>, k: int)
    requires
        0 <= k < entries.len(),
    ensures
        files_of(entries).contains(entries[k]) <== {
            &&& entries[k].name.len() > 0
            &&& !"/"@.is_suffix_of(entries[k].name)
            &&& is_first_named(entries, k)
        },
        forall|i: int|
            0 <= i < files_of(entries).len() ==> exists|j: int|
                #[trigger] is_first_named(entries, j) && entries[j] == #[trigger] files_of(
                    entries,
                )[i],
    decreases entries.len(),
{
    let last = entries.len() - 1;
    let d = entries.drop_last();
    let before = files_of(d);
    let all = files_of(entries);
    let e = entries.last();
    if d.len() > 0 {
        the_first_of_a_name_counts(d, if k < last { k } else { 0 });
    }
    assert forall|i: int| 0 <= i < before.len() implies exists|j: int|
        #[trigger] is_first_named(entries, j) && entries[j] == #[trigger] before[i] by {
        if d.len() == 0 {
            assert(before.len() == 0);
        }
        let j = choose|j: int| #[trigger] is_first_named(d, j) && d[j] == before[i];
        assert(forall|m: int| 0 <= m < j ==> #[trigger] entries[m] == d[m]);
        assert(is_first_named(entries, j) && entries[j] == before[i]);
    }
    let joins = !(e.name.len() == 0 || "/"@.is_suffix_of(e.name) || cd_names(before).contains(
        e.name,
    ));
    assert forall|i: int| 0 <= i < all.len() implies exists|j: int|
        #[trigger] is_first_named(entries, j) && entries[j] == #[trigger] all[i] by {
        if i < before.len() {
            assert(all[i] == before[i]);
        } else {
            assert(joins && all[i] == e);
            assert forall|m: int| 0 <= m < last implies (#[trigger] entries[m]).name != e.name by {
                if entries[m].name == e.name {
                    names_of_files_are_kept(d, m);
                }
            }
            assert(is_first_named(entries, last) && entries[last] == e);
        }
    }
    if k < last {
        assert(d[k] == entries[k]);
        if is_first_named(entries, k) {
            assert forall|m: int| 0 <= m < k implies (#[trigger] d[m]).name != d[k].name by {
                assert(d[m] == entries[m]);
            }
            assert(is_first_named(d, k));
            if before.contains(entries[k]) {
                let q = choose|q: int| 0 <= q < before.len() && before[q] == entries[k];
                assert(all[q] == before[q]);
            }
        }
    } else if is_first_named(entries, k) && e.name.len() > 0 && !"/"@.is_suffix_of(e.name) {
        if cd_names(before).contains(e.name) {
            let q = choose|q: int| 0 <= q < before.len() && cd_names(before)[q] == e.name;
            assert(before[q].name == e.name);
            let j = choose|j: int| #[trigger] is_first_named(d, j) && d[j] == before[q];
            assert(entries[j] == d[j]);
            assert(false);
        }
        assert(all.last() == e);
    }
}

/// The name of every file stays among the names.
proof fn names_of_files_are_kept(entries: Seq<CdView>, k: int)
    requires
        0 <= k < entries.len(),
        entries[k].name.len() > 0,
        !"/"@.is_suffix_of(entries[k].name),
    ensures
        cd_names(files_of(entries)).contains(entries[k].name),
    decreases entries.len(),
{
    let last = entries.len() - 1;
    let before = files_of(entries.drop_last());
    let all = files_of(entries);
    if k < last {
        assert(entries.drop_last()[k] == entries[k]);
        names_of_files_are_kept(entries.drop_last(), k);
        let q = choose|q: int|
            0 <= q < cd_names(before).len() && cd_names(before)[q] == entries[k].name;
        assert(all[q] == before[q]);
        assert(cd_names(all)[q] == entries[k].name);
    } else if !cd_names(before).contains(entries[k].name) {
        assert(cd_names(all)[before.len() as int] == entries[k].name);
    }
}

/// A stored file lies behind its local header, the name and the extra field, whose lengths stand
/// behind twenty-six bytes of that header. It is given out as it lies there.
pub proof fn a_stored_file_is_given_out_as_it_lies(
    raw: Seq<u8>,
    name: Seq<char>,
    lho: u32,
    csize: u32,
    data: Seq<u8>,
    named: int,
    extra: int,
)
    requires
        0 <= named < 65536,
        0 <= extra < 65536,
        data.len() == csize,
        lho + 30 + named + extra + csize <= raw.len(),
        raw.subrange(lho as int, lho + 4) == four_bytes(0x0403_4b50),
        raw.subrange(lho + 26, lho + 28) == two_bytes(named),
        raw.subrange(lho + 28, lho + 30) == two_bytes(extra),
        raw.subrange(lho + 30 + named + extra, lho + 30 + named + extra + csize) == data,
    ensures
        entry_bytes(raw, (CdView { name, method: 0, csize, lho })) == Ok::<Seq<u8>, Seq<char>>(data),
        inflated(data) matches Ok(d) ==> entry_bytes(raw, (CdView { name, method: 8, csize, lho }))
            == Ok::<Seq<u8>, Seq<char>>(d),
        forall|m: u16|
            m != 0 && m != 8 ==> #[trigger] entry_bytes(
                raw,
                (CdView { name, method: m, csize, lho }),
            ) is Err,
{
    numbers_are_read_as_written(raw, lho as int, 0x0403_4b50);
    numbers_are_read_as_written(raw, lho + 26, named);
    numbers_are_read_as_written(raw, lho + 28, extra);
}

/// A rebuilt archive has one file for each entry, in their order: under its name, packed as it
/// was, and with its bytes. Only a package document has others, and those it has hold the
/// repaired text.
pub proof fn every_entry_is_rebuilt(
    raw: Seq<u8>,
    entries: Seq<CdView>,
    valid: Seq<Seq<char>>,
    n: nat,
    i: int,
)
    requires
        n <= entries.len(),
        0 <= i < n,
        rebuild_first(raw, entries, valid, n) is Ok,
    ensures
        ({
            let files = rebuild_first(raw, entries, valid, n)->Ok_0;
            &&& files.len() == n
            &&& files[i].name == entries[i].name
            &&& files[i].method == entries[i].method
            &&& entry_bytes(raw, entries[i]) is Ok
            &&& !is_opf(entries[i].name) ==> files[i].data == entry_bytes(raw, entries[i])->Ok_0
            &&& is_opf(entries[i].name) ==> files[i].data == vstd::utf8::encode_utf8(
                fixed_opf(
                    utf8_lossy(entry_bytes(raw, entries[i])->Ok_0),
                    valid,
                    dir_part(entries[i].name),
                ),
            )
        }),
    decreases n,
{
    let k = n - 1;
    let files = rebuild_first(raw, entries, valid, n)->Ok_0;
    let before = rebuild_first(raw, entries, valid, k as nat)->Ok_0;
    if k > 0 {
        every_entry_is_rebuilt(raw, entries, valid, k as nat, if i < k { i } else { 0 });
    } else {
        assert(before.len() == 0);
    }
    assert(files.len() == before.len() + 1);
    if i < k {
        assert(files[i] == before[i]);
    } else {
        assert(rebuild_one(raw, entries[i], valid) is Ok);
        assert(files[i] == rebuild_one(raw, entries[i], valid)->Ok_0);
    }
}

/// An archive that could be opened is rebuilt file by file: each that has a name and is no
/// folder is there once, packed as it was, in the order of the listing.
pub proof fn a_listed_file_is_rebuilt(
    raw: Seq<u8>,
    items: Seq<Result<ItemView, Seq<char>>>,
    n: nat,
    i: int,
) -> (k: int)
    requires
        n <= items.len(),
        0 <= i < n,
        rebuilt_archive(raw, items, n) is Ok,
    ensures
        items[i] is Ok,
        ({
            let f = items[i]->Ok_0;
            let files = rebuilt_archive(raw, items, n)->Ok_0;
            (!f.is_dir && f.name.len() > 0) ==> {
                &&& 0 <= k < files.len()
                &&& k <= i
                &&& files[k].name == f.name
                &&& files[k].method == f.method
                &&& zip_data(raw, i) is Ok
                &&& !is_opf(f.name) ==> files[k].data == zip_data(raw, i)->Ok_0
            }
        }),
        rebuilt_archive(raw, items, n)->Ok_0.len() <= n,
    decreases n,
{
    let m = n - 1;
    if i < m {
        let k = a_listed_file_is_rebuilt(raw, items, m as nat, i);
        let before = rebuilt_archive(raw, items, m as nat)->Ok_0;
        let files = rebuilt_archive(raw, items, n)->Ok_0;
        assert(0 <= k < before.len() ==> files[k] == before[k]);
        k
    } else {
        if m > 0 {
            let _ = a_listed_file_is_rebuilt(raw, items, m as nat, 0);
        }
        rebuilt_archive(raw, items, m as nat)->Ok_0.len() as int
    }
}

/// The names of an archive are those of its entries that are no folders.
pub proof fn folders_are_not_listed(items: Seq<Result<ItemView, Seq<char>>>, name: Seq<char>)
    ensures
        listed_names(items).contains(name) <==> exists|i: int|
            0 <= i < items.len() && (#[trigger] items[i]) is Ok && !items[i]->Ok_0.is_dir
                && items[i]->Ok_0.name == name,
    decreases items.len(),
{
    let all = listed_names(items);
    if items.len() > 0 {
        let d = items.drop_last();
        let k = items.len() - 1;
        let before = listed_names(d);
        folders_are_not_listed(d, name);
        assert(forall|i: int| 0 <= i < k ==> #[trigger] d[i] == items[i]);
        if all.contains(name) {
            let p = choose|p: int| 0 <= p < all.len() && all[p] == name;
            if p < before.len() {
                assert(before[p] == name);
                assert(before.contains(name));
                let i = choose|i: int|
                    0 <= i < d.len() && (#[trigger] d[i]) is Ok && !d[i]->Ok_0.is_dir
                        && d[i]->Ok_0.name == name;
                assert(items[i] is Ok);
            } else {
                assert(items[k] is Ok);
            }
        }
        if exists|i: int|
            0 <= i < items.len() && (#[trigger] items[i]) is Ok && !items[i]->Ok_0.is_dir
                && items[i]->Ok_0.name == name {
            let i = choose|i: int|
                0 <= i < items.len() && (#[trigger] items[i]) is Ok && !items[i]->Ok_0.is_dir
                    && items[i]->Ok_0.name == name;
            if i < k {
                assert(d[i] is Ok);
                let p = choose|p: int| 0 <= p < before.len() && before[p] == name;
                assert(all[p] == name);
            } else {
                assert(all.last() == name);
            }
        }
    }
}

/// An archive is left as it is exactly where it can be opened, repeats no name and has no package
/// document that needs the repair. One that repeats a name is rebuilt from its central directory.
pub proof fn when_an_archive_is_mended(
    raw: Seq<u8>,
    items: Seq<Result<ItemView, Seq<char>>>,
    opfs: Seq<(Seq<char>, Seq<char>)>,
)
    requires
        zip_listing(raw) == Ok::<(bool, Seq<Result<ItemView, Seq<char>>>), Seq<char>>(
            (false, items),
        ),
        package_texts(raw, items, items.len()) == Ok::<Seq<(Seq<char>, Seq<char>)>, Seq<char>>(opfs),
    ensures
        (forall|i: int, j: int|
            #![trigger stays(items_of(opfs[i].1), j, listed_names(items), dir_part(opfs[i].0))]
            0 <= i < opfs.len() && 0 <= j < items_of(opfs[i].1).len() ==> stays(
                items_of(opfs[i].1),
                j,
                listed_names(items),
                dir_part(opfs[i].0),
            )) <==> mended(raw) == Ok::<Option<Seq<RebuiltView>>, Seq<char>>(None),
{
    let names = listed_names(items);
    if archive_faulty(names, opfs) {
        let i = choose|i: int|
            0 <= i < opfs.len() && items_need_fix(
                items_of((#[trigger] opfs[i]).1),
                names,
                dir_part(opfs[i].0),
            );
        let it = items_of(opfs[i].1);
        let j = choose|j: int|
            0 <= j < it.len() && !#[trigger] stays(it, j, names, dir_part(opfs[i].0));
        assert(!stays(items_of(opfs[i].1), j, names, dir_part(opfs[i].0)));
    } else {
        assert forall|i: int, j: int|
            #![trigger stays(items_of(opfs[i].1), j, names, dir_part(opfs[i].0))]
            0 <= i < opfs.len() && 0 <= j < items_of(opfs[i].1).len() implies stays(
            items_of(opfs[i].1),
            j,
            names,
            dir_part(opfs[i].0),
        ) by {
            let o = opfs[i];
            assert(!items_need_fix(items_of(opfs[i].1), names, dir_part(opfs[i].0)));
        }
    }
}

} // verus!
