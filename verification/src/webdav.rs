//! Synchronisation of a library with a directory on a server.
//!
//! Pushing makes the server hold what the library holds; pulling makes the library hold
//! what the server holds. Both are laid out as steps before the first of them is taken.
use vstd::prelude::*;
use vstd::string::*;

use crate::config::{is_library_name, is_valid_library_name, LibraryConfig, WebDavConfig};
use crate::encoding::{decode, decoding_undoes_encoding, encode_seg, seg_code, uncoded};
use crate::patterns::{
    captures_all, first_group, first_match, group, group_of, groups_view, is_match, matches_in,
    matches_view, regex_matches,
};
use crate::text::{
    chars_of, clone_strings, ends_stripped, find_chars, find_from, find_from_is_first, join, joined,
    occurs_at, opt_str, parse_nat, parse_u64, right_stripped, same, split, split_on, starts_with,
    string_of_range, strip_ends, strip_right, strs, strs_push, trim, trimmed, utf8_lossy,
};
use crate::paths::{dir_of, dir_part, the_directory_ends_at_the_last_slash};

verus! {

// ---- stopping ----

/// Whether a synchronisation is to stop.
#[derive(Debug)]
pub struct SyncCancel {
    pub cancelled: bool,
}

impl SyncCancel {
    pub fn new() -> (r: SyncCancel)
        ensures
            !r.cancelled,
    {
        SyncCancel { cancelled: false }
    }

    /// Asks to stop.
    pub fn cancel(&mut self)
        ensures
            final(self).cancelled,
    {
        self.cancelled = true;
    }

    pub fn is_cancelled(&self) -> (r: bool)
        ensures
            r == self.cancelled,
    {
        self.cancelled
    }

    /// The error of a synchronisation that was asked to stop.
    pub fn check(&self) -> (r: Result<(), String>)
        ensures
            match r {
                Ok(_) => !self.cancelled,
                Err(e) => self.cancelled && e@ == "已取消"@,
            },
    {
        if self.cancelled {
            Err("已取消".to_owned())
        } else {
            Ok(())
        }
    }
}

// ---- the library and the server ----

/// A library that is to be synchronised.
#[derive(Debug)]
pub struct LibrarySyncCtx {
    pub library_id: String,
    /// The name of the directory on the server.
    pub name: String,
    pub library_dir: String,
    pub covers_dir: String,
    /// The tags for books that the server has no record of.
    pub default_tags: Vec<String>,
}

/// The library as it is to be synchronised, where that is switched on and its name is one.
pub fn ensure_ctx(lib: &LibraryConfig, covers_dir: String) -> (r: Result<LibrarySyncCtx, String>)
    ensures
        match r {
            Ok(c) => {
                &&& lib.webdav.enabled
                &&& is_library_name(lib.name@)
                &&& c.library_id@ == lib.id@
                &&& c.name@ == lib.name@
                &&& c.library_dir@ == lib.path@
                &&& c.covers_dir == covers_dir
                &&& strs(c.default_tags@) == strs(lib.default_tags@)
            },
            Err(e) => if !lib.webdav.enabled {
                e@ == "该书库未启用 WebDav 同步，请先在 WebDav 页签启用并保存"@
            } else {
                &&& !is_library_name(lib.name@)
                &&& e@ == "书库名非法（仅大小写字母/数字/下划线）："@ + lib.name@
            },
        },
{
    if !lib.webdav.enabled {
        return Err("该书库未启用 WebDav 同步，请先在 WebDav 页签启用并保存".to_owned());
    }
    if !is_valid_library_name(&lib.name) {
        return Err("书库名非法（仅大小写字母/数字/下划线）：".to_owned().concat(&lib.name));
    }
    Ok(
        LibrarySyncCtx {
            library_id: lib.id.as_str().to_owned(),
            name: lib.name.as_str().to_owned(),
            library_dir: lib.path.as_str().to_owned(),
            covers_dir,
            default_tags: clone_strings(&lib.default_tags),
        },
    )
}

/// The parts that are not empty, each as in an address.
pub open spec fn coded_parts(parts: Seq<Seq<char>>) -> Seq<Seq<char>>
    decreases parts.len(),
{
    if parts.len() == 0 {
        Seq::empty()
    } else if parts.last().len() == 0 {
        coded_parts(parts.drop_last())
    } else {
        coded_parts(parts.drop_last()).push(seg_code(parts.last()))
    }
}

/// The address of the server, without white space and slashes behind it.
pub open spec fn server_of(cfg: WebDavConfig) -> Seq<char> {
    strip_right(trim(cfg.url@), '/')
}

/// The address of the library's directory on the server.
pub open spec fn base_of(cfg: WebDavConfig, name: Seq<char>) -> Seq<char> {
    let dir = strip_ends(trim(cfg.remote_dir@), '/');
    server_of(cfg) + "/"@ + join(
        coded_parts(split_on(dir, seq!['/'])).push(seg_code(name)),
        "/"@,
    )
}

fn slash() -> (r: Vec<char>)
    ensures
        r@ == seq!['/'],
{
    let mut v: Vec<char> = Vec::new();
    v.push('/');
    assert(v@ =~= seq!['/']);
    v
}

fn code_parts(parts: &Vec<String>) -> (r: Vec<String>)
    ensures
        strs(r@) == coded_parts(strs(parts@)),
{
    let ghost all = strs(parts@);
    let mut out: Vec<String> = Vec::new();
    let mut i: usize = 0;
    assert(all.take(0) =~= Seq::<Seq<char>>::empty());
    assert(strs(out@) =~= coded_parts(all.take(0)));
    while i < parts.len()
        invariant
            i <= parts@.len(),
            all == strs(parts@),
            strs(out@) == coded_parts(all.take(i as int)),
        decreases parts@.len() - i,
    {
        assert(all.take(i + 1).drop_last() =~= all.take(i as int));
        assert(all.take(i + 1).last() == parts@[i as int]@);
        if !parts[i].as_str().is_empty() {
            let code = encode_seg(&parts[i]);
            proof {
                strs_push(out@, code);
            }
            out.push(code);
        }
        i += 1;
    }
    assert(all.take(parts@.len() as int) =~= all);
    out
}

/// The address of the library's directory on the server, where the server's is one.
pub fn dav_base(cfg: &WebDavConfig, name: &str) -> (r: Result<String, String>)
    ensures
        match r {
            Ok(b) => {
                &&& server_of(*cfg).len() > 0
                &&& "http://"@.is_prefix_of(server_of(*cfg)) || "https://"@.is_prefix_of(
                    server_of(*cfg),
                )
                &&& b@ == base_of(*cfg, name@)
            },
            Err(e) => if server_of(*cfg).len() == 0 {
                e@ == "WebDav 服务器地址为空"@
            } else {
                &&& !"http://"@.is_prefix_of(server_of(*cfg))
                &&& !"https://"@.is_prefix_of(server_of(*cfg))
                &&& e@ == "WebDav 地址需以 http(s):// 开头"@
            },
        },
{
    let url = right_stripped(&trimmed(&cfg.url), '/');
    if url.as_str().is_empty() {
        return Err("WebDav 服务器地址为空".to_owned());
    }
    if !starts_with(&url, "http://") && !starts_with(&url, "https://") {
        return Err("WebDav 地址需以 http(s):// 开头".to_owned());
    }
    let dir_chars = chars_of(&trimmed(&cfg.remote_dir));
    let dir = ends_stripped(&dir_chars, '/');
    let parts = split(&dir, &slash());
    let mut segments = code_parts(&parts);
    let last = encode_seg(name);
    proof {
        strs_push(segments@, last);
    }
    segments.push(last);
    Ok(url.concat("/").concat(&joined(&segments, "/")))
}

/// The address of a file in the library's directory.
pub fn file_url(base: &str, name: &str) -> (r: String)
    ensures
        r@ == base@ + "/"@ + seg_code(name@),
{
    base.to_owned().concat("/").concat(&encode_seg(name))
}

/// The address of a cover in the library's directory.
pub fn cover_url(base: &str, name: &str) -> (r: String)
    ensures
        r@ == base@ + "/covers/"@ + seg_code(name@),
{
    base.to_owned().concat("/covers/").concat(&encode_seg(name))
}

/// The addresses of the directories to make, from the server's down.
pub open spec fn dirs_below(top: Seq<char>, parts: Seq<Seq<char>>) -> Seq<Seq<char>>
    decreases parts.len(),
{
    if parts.len() == 0 {
        Seq::empty()
    } else {
        let before = dirs_below(top, parts.drop_last());
        if parts.last().len() == 0 {
            before
        } else {
            let above = if before.len() == 0 {
                top
            } else {
                before.last()
            };
            before.push(above + "/"@ + parts.last())
        }
    }
}

/// Where the path of an address begins: at the first slash behind `://`.
pub open spec fn path_start(base: Seq<char>) -> Option<int> {
    match find_from(base, "://"@, 0) {
        Some(i) => match find_from(base, "/"@, i + 3) {
            Some(k) => Some(k),
            None => Some(base.len() as int),
        },
        None => None,
    }
}

/// The addresses of the directories to make before a library can be pushed, the outermost
/// first.
pub fn dirs_to_make(base: &str) -> (r: Result<Vec<String>, String>)
    ensures
        match r {
            Ok(v) => path_start(base@) matches Some(k) && strs(v@) == dirs_below(
                base@.take(k),
                split_on(base@.skip(k), seq!['/']),
            ),
            Err(e) => path_start(base@) is None && e@ == "WebDav 地址缺少 scheme"@,
        },
{
    let v = chars_of(base);
    let mark = chars_of("://");
    let one = slash();
    proof {
        reveal_strlit("://");
        reveal_strlit("/");
        assert("/"@ =~= one@);
        find_from_is_first(base@, "://"@, 0);
    }
    match find_chars(&v, &mark, 0) {
        None => Err("WebDav 地址缺少 scheme".to_owned()),
        Some(i) => {
            assert(occurs_at(v@, mark@, i as int));
            let _len: usize = v.len();
            proof {
                find_from_is_first(base@, "/"@, i + 3);
            }
            let k: usize = match find_chars(&v, &one, i + 3) {
                Some(k) => {
                    assert(occurs_at(v@, one@, k as int));
                    k
                },
                None => v.len(),
            };
            let top = string_of_range(&v, 0, k);
            let path = string_of_range(&v, k, v.len());
            assert(top@ =~= base@.take(k as int));
            assert(path@ =~= base@.skip(k as int));
            let parts = split(&path, &one);
            let ghost all = strs(parts@);
            let mut out: Vec<String> = Vec::new();
            let mut current = top.clone();
            let mut n: usize = 0;
            assert(all.take(0) =~= Seq::<Seq<char>>::empty());
            assert(strs(out@) =~= dirs_below(top@, all.take(0)));
            while n < parts.len()
                invariant
                    n <= parts@.len(),
                    all == strs(parts@),
                    strs(out@) == dirs_below(top@, all.take(n as int)),
                    current@ == (if out@.len() == 0 {
                        top@
                    } else {
                        out@.last()@
                    }),
                decreases parts@.len() - n,
            {
                assert(all.take(n + 1).drop_last() =~= all.take(n as int));
                assert(all.take(n + 1).last() == parts@[n as int]@);
                assert(strs(out@).len() == out@.len());
                if out.len() > 0 {
                    assert(strs(out@).last() == out@.last()@);
                }
                if !parts[n].as_str().is_empty() {
                    current = current.concat("/").concat(&parts[n]);
                    let copy = current.as_str().to_owned();
                    proof {
                        strs_push(out@, copy);
                    }
                    out.push(copy);
                }
                n += 1;
            }
            assert(all.take(parts@.len() as int) =~= all);
            Ok(out)
        },
    }
}

/// Whether a server's answer to the making of a directory says that it is there.
pub fn is_dir_exists_status(status: u16) -> (r: bool)
    ensures
        r == (status == 405 || status == 301 || status == 302 || status == 409 || status == 403),
{
    status == 405 || status == 301 || status == 302 || status == 409 || status == 403
}

/// Whether the making of a directory went well: it was made, or is there.
pub fn dir_made(status: u16) -> (r: bool)
    ensures
        r == (200 <= status < 300 || status == 405 || status == 301 || status == 302 || status
            == 409 || status == 403),
{
    (200 <= status && status < 300) || is_dir_exists_status(status)
}

// ---- the files in a directory on the server ----

/// A file on the server.
#[derive(Debug)]
pub struct RemoteFile {
    pub name: String,
    pub size: u64,
}

/// A file, by the characters of its name.
pub struct FileView {
    pub name: Seq<char>,
    pub size: nat,
}

impl View for RemoteFile {
    type V = FileView;

    open spec fn view(&self) -> FileView {
        FileView { name: self.name@, size: self.size as nat }
    }
}

/// The views of a list of files on the server.
pub open spec fn remote_views(v: Seq<RemoteFile>) -> Seq<FileView> {
    v.map_values(|f: RemoteFile| f@)
}

pub const RESPONSE: &'static str =
    "(?is)<[a-z0-9]*:?response\\b[^>]*>(.*?)</[a-z0-9]*:?response>";

pub const HREF: &'static str = "(?is)<[a-z0-9]*:?href\\b[^>]*>(.*?)</[a-z0-9]*:?href>";

pub const LENGTH: &'static str =
    "(?is)<[a-z0-9]*:?getcontentlength\\b[^>]*>(.*?)</[a-z0-9]*:?getcontentlength>";

pub const COLLECTION: &'static str =
    "(?is)<[a-z0-9]*:?resourcetype\\b[^>]*>\\s*<[a-z0-9]*:?collection\\s*/?>";

/// The part of a path behind its last slash.
pub open spec fn last_part(path: Seq<char>) -> Seq<char> {
    path.skip(dir_part(path).len() as int)
}

/// The name that an address ends in.
pub open spec fn name_in(href: Seq<char>) -> Seq<char> {
    utf8_lossy(uncoded(vstd::utf8::encode_utf8(last_part(trim(href)))))
}

/// The size in an answer; zero where it gives none.
pub open spec fn size_in(text: Option<Seq<char>>) -> nat {
    match text {
        Some(t) => match parse_nat(trim(t)) {
            Some(n) => if n <= u64::MAX {
                n
            } else {
                0
            },
            None => 0,
        },
        None => 0,
    }
}

/// The file that a block of an answer describes; directories and blocks without a name
/// describe none.
pub open spec fn file_in(is_dir: bool, href: Option<Seq<char>>, length: Option<Seq<char>>) -> Option<
    FileView,
> {
    if is_dir || href is None || name_in(href->0).len() == 0 {
        None
    } else {
        Some(FileView { name: name_in(href->0), size: size_in(length) })
    }
}

/// The file that a block of an answer describes.
pub open spec fn file_of_block(block: Seq<char>) -> Option<FileView> {
    file_in(matches_in(COLLECTION@, block), first_group(HREF@, block), first_group(LENGTH@, block))
}

/// Where the file `name` stands.
pub open spec fn file_at(files: Seq<FileView>, name: Seq<char>) -> Option<int>
    decreases files.len(),
{
    if files.len() == 0 {
        None
    } else if files.last().name == name {
        Some(files.len() - 1)
    } else {
        file_at(files.drop_last(), name)
    }
}

/// The files that the blocks of an answer describe.
pub open spec fn files_of_blocks(ms: Seq<Seq<Option<Seq<char>>>>) -> Seq<FileView>
    decreases ms.len(),
{
    if ms.len() == 0 {
        Seq::empty()
    } else {
        let before = files_of_blocks(ms.drop_last());
        match file_of_block(block_of(ms.last())) {
            Some(f) => put_file(before, f),
            None => before,
        }
    }
}

/// The text of a block.
pub open spec fn block_of(m: Seq<Option<Seq<char>>>) -> Seq<char> {
    match group(m, 1) {
        Some(b) => b,
        None => Seq::empty(),
    }
}

/// The files with `f` among them: a file of the same name takes its size, else it comes
/// last.
pub open spec fn put_file(files: Seq<FileView>, f: FileView) -> Seq<FileView> {
    match file_at(files, f.name) {
        Some(i) => files.update(i, f),
        None => files.push(f),
    }
}

/// The files that an answer describes.
pub open spec fn files_listed(xml: Seq<char>) -> Seq<FileView> {
    match regex_matches(RESPONSE@, xml) {
        Some(ms) => files_of_blocks(ms),
        None => Seq::empty(),
    }
}

/// The file that a block of an answer describes, from what the patterns find in it.
pub fn remote_file(is_dir: bool, href: &Option<String>, length: &Option<String>) -> (r: Option<
    RemoteFile,
>)
    ensures
        match r {
            Some(f) => file_in(is_dir, opt_str(*href), opt_str(*length)) == Some(f@),
            None => file_in(is_dir, opt_str(*href), opt_str(*length)) is None,
        },
{
    if is_dir {
        return None;
    }
    match href {
        None => None,
        Some(h) => {
            let raw = trimmed(h);
            let v = chars_of(&raw);
            let dir = dir_of(&raw);
            let d = chars_of(&dir);
            proof {
                dir_part_is_prefix(raw@);
                assert(last_part(raw@) =~= v@.subrange(d@.len() as int, v@.len() as int));
            }
            let name = decode(&string_of_range(&v, d.len(), v.len()));
            if name.as_str().is_empty() {
                return None;
            }
            let size: u64 = match length {
                Some(t) => match parse_u64(&trimmed(t)) {
                    Some(n) => n,
                    None => 0,
                },
                None => 0,
            };
            Some(RemoteFile { name, size })
        },
    }
}

proof fn dir_part_is_prefix(s: Seq<char>)
    ensures
        dir_part(s).len() <= s.len(),
    decreases s.len(),
{
    if s.len() > 0 && s.last() != '/' {
        dir_part_is_prefix(s.drop_last());
    }
}

proof fn file_at_is_in(files: Seq<FileView>, name: Seq<char>)
    ensures
        match file_at(files, name) {
            Some(i) => 0 <= i < files.len() && files[i].name == name,
            None => forall|i: int| 0 <= i < files.len() ==> (#[trigger] files[i]).name != name,
        },
    decreases files.len(),
{
    if files.len() > 0 {
        file_at_is_in(files.drop_last(), name);
        if files.last().name != name && file_at(files.drop_last(), name) is None {
            assert forall|i: int| 0 <= i < files.len() implies (#[trigger] files[i]).name
                != name by {
                if i < files.len() - 1 {
                    assert(files.drop_last()[i].name != name);
                }
            }
        }
    }
}

/// Where the file `name` stands.
pub fn find_file(files: &Vec<RemoteFile>, name: &str) -> (r: Option<usize>)
    ensures
        match r {
            Some(i) => i < files@.len() && file_at(remote_views(files@), name@) == Some(i as int),
            None => file_at(remote_views(files@), name@) is None,
        },
{
    let ghost all = remote_views(files@);
    let mut i: usize = files.len();
    assert(all.take(files@.len() as int) =~= all);
    while i > 0
        invariant
            i <= files@.len(),
            all == remote_views(files@),
            file_at(all, name@) == file_at(all.take(i as int), name@),
        decreases i,
    {
        assert(all.take(i as int).last() == files@[i - 1]@);
        assert(all.take(i as int).drop_last() =~= all.take(i - 1));
        if same(&files[i - 1].name, name) {
            return Some(i - 1);
        }
        i -= 1;
    }
    None
}

/// The files that an answer describes: directories do not count, and of two blocks with one
/// name the later counts.
pub fn parse_propfind(xml: &str) -> (r: Vec<RemoteFile>)
    ensures
        remote_views(r@) == files_listed(xml@),
{
    let mut out: Vec<RemoteFile> = Vec::new();
    assert(remote_views(out@) =~= Seq::<FileView>::empty());
    match captures_all(RESPONSE, xml) {
        None => out,
        Some(ms) => {
            let ghost all = matches_view(ms@);
            let mut i: usize = 0;
            assert(all.take(0) =~= Seq::<Seq<Option<Seq<char>>>>::empty());
            while i < ms.len()
                invariant
                    i <= ms@.len(),
                    all == matches_view(ms@),
                    remote_views(out@) == files_of_blocks(all.take(i as int)),
                decreases ms@.len() - i,
            {
                assert(all.take(i + 1).drop_last() =~= all.take(i as int));
                assert(all.take(i + 1).last() == groups_view(ms@[i as int]@));
                let block = match group_of(&ms[i], 1) {
                    Some(b) => b,
                    None => String::new(),
                };
                assert(block@ =~= block_of(all[i as int]));
                let found = remote_file(
                    is_match(COLLECTION, &block),
                    &first_match(HREF, &block),
                    &first_match(LENGTH, &block),
                );
                match found {
                    Some(f) => {
                        let ghost was = out@;
                        let ghost v = f@;
                        match find_file(&out, &f.name) {
                            Some(k) => {
                                out.set(k, f);
                                assert(remote_views(out@) =~= remote_views(was).update(
                                    k as int,
                                    v,
                                ));
                            },
                            None => {
                                out.push(f);
                                assert(remote_views(out@) =~= remote_views(was).push(v));
                            },
                        }
                    },
                    None => {},
                }
                i += 1;
            }
            assert(all.take(ms@.len() as int) =~= all);
            out
        },
    }
}

/// Whether no two files have one name.
pub open spec fn distinct_names(files: Seq<FileView>) -> bool {
    forall|i: int, j: int|
        0 <= i < j < files.len() ==> (#[trigger] files[i]).name != (#[trigger] files[j]).name
}

/// No two of the files that an answer describes have one name.
pub proof fn listed_names_differ(ms: Seq<Seq<Option<Seq<char>>>>)
    ensures
        distinct_names(files_of_blocks(ms)),
    decreases ms.len(),
{
    if ms.len() > 0 {
        listed_names_differ(ms.drop_last());
        let before = files_of_blocks(ms.drop_last());
        match file_of_block(block_of(ms.last())) {
            Some(f) => {
                file_at_is_in(before, f.name);
            },
            None => {},
        }
    }
}

/// What a server's answer to the listing of a directory says: a directory that is not there
/// is empty.
pub fn list_dir_result(status: u16, status_text: &str, body: &str) -> (r: Result<
    Vec<RemoteFile>,
    String,
>)
    ensures
        match r {
            Ok(v) => (status == 404 && v@.len() == 0) || (200 <= status < 300 && remote_views(v@)
                == files_listed(body@)),
            Err(e) => status != 404 && !(200 <= status < 300) && e@ == "读取远程目录失败: HTTP "@
                + status_text@ + "（401/403 请检查账号密码）"@,
        },
{
    if status == 404 {
        return Ok(Vec::new());
    }
    if !(200 <= status && status < 300) {
        return Err(
            "读取远程目录失败: HTTP ".to_owned().concat(status_text).concat(
                "（401/403 请检查账号密码）",
            ),
        );
    }
    Ok(parse_propfind(body))
}

// ---- addresses and answers ----

/// The parts of a directory are written as parts of an address, without the empty ones.
pub proof fn empty_parts_do_not_count(parts: Seq<Seq<char>>)
    ensures
        coded_parts(parts) == parts.filter(|p: Seq<char>| p.len() > 0).map_values(
            |p: Seq<char>| seg_code(p),
        ),
    decreases parts.len(),
{
    reveal(Seq::filter);
    let f = |p: Seq<char>| p.len() > 0;
    let g = |p: Seq<char>| seg_code(p);
    if parts.len() > 0 {
        empty_parts_do_not_count(parts.drop_last());
        let before = parts.drop_last().filter(f);
        if f(parts.last()) {
            assert(before.push(parts.last()).map_values(g) =~= before.map_values(g).push(
                seg_code(parts.last()),
            ));
        }
        assert(coded_parts(parts) =~= parts.filter(f).map_values(g));
    } else {
        assert(coded_parts(parts) =~= parts.filter(f).map_values(g));
    }
}

/// A library lies on the server below the configured directory, under its name: the address is
/// that of the server, the parts of the directory and the name, with slashes between them.
pub proof fn where_a_library_lies(cfg: WebDavConfig, name: Seq<char>)
    ensures
        base_of(cfg, name) == strip_right(trim(cfg.url@), '/') + "/"@ + join(
            split_on(strip_ends(trim(cfg.remote_dir@), '/'), seq!['/']).filter(
                |p: Seq<char>| p.len() > 0,
            ).map_values(|p: Seq<char>| seg_code(p)).push(seg_code(name)),
            "/"@,
        ),
{
    empty_parts_do_not_count(split_on(strip_ends(trim(cfg.remote_dir@), '/'), seq!['/']));
}

/// The directories to make lie one below the other, from the top down: one for each part that is
/// not empty.
pub proof fn directories_lie_one_below_the_other(top: Seq<char>, parts: Seq<Seq<char>>)
    ensures
        ({
            let v = dirs_below(top, parts);
            let kept = parts.filter(|p: Seq<char>| p.len() > 0);
            &&& v.len() == kept.len()
            &&& v.len() > 0 ==> v[0] == top + "/"@ + kept[0]
            &&& forall|i: int| 0 < i < v.len() ==> #[trigger] v[i] == v[i - 1] + "/"@ + kept[i]
        }),
    decreases parts.len(),
{
    reveal(Seq::filter);
    let f = |p: Seq<char>| p.len() > 0;
    if parts.len() > 0 {
        let d = parts.drop_last();
        directories_lie_one_below_the_other(top, d);
        let before = dirs_below(top, d);
        let v = dirs_below(top, parts);
        let had = d.filter(f);
        let kept = parts.filter(f);
        if f(parts.last()) {
            assert(kept == had.push(parts.last()));
            assert forall|i: int| 0 < i < v.len() implies #[trigger] v[i] == v[i - 1] + "/"@
                + kept[i] by {
                assert(v[i - 1] == before[i - 1]);
                if i < before.len() {
                    assert(v[i] == before[i]);
                }
            }
            if before.len() > 0 {
                assert(v[0] == before[0]);
            }
        }
    }
}

/// The path of an address begins behind its host: at the first slash there, or at its end where
/// it has none.
pub proof fn a_path_begins_behind_the_host(scheme: Seq<char>, host: Seq<char>, rest: Seq<char>)
    requires
        !host.contains('/'),
        rest.len() > 0 ==> rest[0] == '/',
        forall|i: int| 0 <= i < scheme.len() ==> !occurs_at(scheme + "://"@ + host + rest, "://"@, i),
    ensures
        path_start(scheme + "://"@ + host + rest) == Some((scheme.len() + 3 + host.len()) as int),
{
    reveal_strlit("://");
    reveal_strlit("/");
    let s = scheme + "://"@ + host + rest;
    let n = scheme.len() as int;
    assert(s.subrange(n, n + 3) =~= "://"@);
    assert(occurs_at(s, "://"@, n));
    find_from_is_first(s, "://"@, 0);
    match find_from(s, "://"@, 0) {
        Some(k) => {
            if k < n {
                assert(!occurs_at(s, "://"@, k));
            }
            assert(k == n);
        },
        None => {
            assert(!occurs_at(s, "://"@, n));
        },
    }
    find_from_is_first(s, "/"@, n + 3);
    let e = n + 3 + host.len();
    match find_from(s, "/"@, n + 3) {
        Some(k) => {
            assert(s.subrange(k, k + 1)[0] == s[k]);
            assert(s[k] == '/');
            if k < e {
                assert(s[k] == host[k - n - 3]);
                assert(host.contains('/'));
            }
            if e < s.len() {
                assert(s[e] == rest[0]);
                assert(s.subrange(e, e + 1) =~= "/"@);
                assert(occurs_at(s, "/"@, e));
            }
        },
        None => {
            if e < s.len() {
                assert(s[e] == rest[0]);
                assert(s.subrange(e, e + 1) =~= "/"@);
                assert(occurs_at(s, "/"@, e));
            }
        },
    }
}

/// An address names the file whose name it was made from: what stands behind its last slash,
/// decoded.
pub proof fn an_address_names_its_file(href: Seq<char>, dir: Seq<char>, name: Seq<char>)
    requires
        trim(href) == dir + seg_code(name),
        dir.len() == 0 || dir.last() == '/',
        !seg_code(name).contains('/'),
    ensures
        name_in(href) == utf8_lossy(vstd::utf8::encode_utf8(name)),
{
    the_directory_ends_at_the_last_slash(dir, seg_code(name));
    assert((dir + seg_code(name)).skip(dir.len() as int) =~= seg_code(name));
    decoding_undoes_encoding(name);
}

/// A block of an answer describes a file where it is no directory and its address ends in a
/// name: under that name, with the size that is given, and none where there is no size of 64
/// bits.
pub proof fn what_a_block_describes(href: Seq<char>, length: Option<Seq<char>>, n: nat)
    ensures
        file_in(true, Some(href), length) is None,
        file_in(false, None, length) is None,
        name_in(href).len() == 0 ==> file_in(false, Some(href), length) is None,
        name_in(href).len() > 0 ==> {
            &&& file_in(false, Some(href), length) is Some
            &&& (file_in(false, Some(href), length)->0).name == name_in(href)
            &&& length is None ==> (file_in(false, Some(href), length)->0).size == 0
            &&& length is Some && parse_nat(trim(length->0)) is None ==> (file_in(
                false,
                Some(href),
                length,
            )->0).size == 0
            &&& length is Some && parse_nat(trim(length->0)) == Some(n) && n <= u64::MAX ==> (
            file_in(false, Some(href), length)->0).size == n
        },
{
}

/// Every file that a block of an answer describes is listed, as the last block with its name
/// describes it; nothing else is.
pub proof fn every_block_counts(ms: Seq<Seq<Option<Seq<char>>>>, i: int)
    requires
        0 <= i < ms.len(),
    ensures
        (file_of_block(block_of(ms[i])) is Some && forall|j: int|
            i < j < ms.len() && file_of_block(block_of(#[trigger] ms[j])) is Some ==> (file_of_block(
                block_of(ms[j]),
            )->0).name != (file_of_block(block_of(ms[i]))->0).name) ==> files_of_blocks(ms).contains(
            file_of_block(block_of(ms[i]))->0,
        ),
        forall|k: int|
            0 <= k < files_of_blocks(ms).len() ==> exists|j: int|
                0 <= j < ms.len() && file_of_block(block_of(#[trigger] ms[j])) == Some(
                    #[trigger] files_of_blocks(ms)[k],
                ),
    decreases ms.len(),
{
    let d = ms.drop_last();
    let n = ms.len() - 1;
    let before = files_of_blocks(d);
    let now = files_of_blocks(ms);
    if d.len() > 0 {
        every_block_counts(d, if i < n { i } else { 0 });
    }
    assert(forall|j: int| 0 <= j < n ==> #[trigger] d[j] == ms[j]);
    let last = file_of_block(block_of(ms.last()));
    if last is Some {
        file_at_is_in(before, (last->0).name);
    }
    assert forall|k: int| 0 <= k < now.len() implies exists|j: int|
        0 <= j < ms.len() && file_of_block(block_of(#[trigger] ms[j])) == Some(
            #[trigger] now[k],
        ) by {
        if last is Some && now[k] == last->0 {
            assert(file_of_block(block_of(ms[n])) == Some(now[k]));
        } else {
            assert(now[k] == before[k]);
            if d.len() == 0 {
                assert(before.len() == 0);
            }
            let j = choose|j: int|
                0 <= j < d.len() && file_of_block(block_of(#[trigger] d[j])) == Some(before[k]);
            assert(file_of_block(block_of(ms[j])) == Some(now[k]));
        }
    }
    let mine = file_of_block(block_of(ms[i]));
    if mine is Some && (forall|j: int|
        i < j < ms.len() && file_of_block(block_of(#[trigger] ms[j])) is Some ==> (file_of_block(
            block_of(ms[j]),
        )->0).name != (mine->0).name) {
        if i == n {
            match file_at(before, (mine->0).name) {
                Some(q) => {
                    assert(now[q] == mine->0);
                },
                None => {
                    assert(now.last() == mine->0);
                },
            }
        } else {
            assert(d[i] == ms[i]);
            assert forall|j: int|
                i < j < d.len() && file_of_block(block_of(#[trigger] d[j])) is Some implies (
            file_of_block(block_of(d[j]))->0).name != (mine->0).name by {
                assert(d[j] == ms[j]);
            }
            let q = choose|q: int| 0 <= q < before.len() && before[q] == mine->0;
            if last is Some {
                assert(file_of_block(block_of(ms[n])) is Some);
                assert((last->0).name != (mine->0).name);
            }
            assert(now[q] == mine->0);
        }
    }
}

} // verus!
