//! Files and directories that the user browses, drops and picks.
use vstd::prelude::*;
use vstd::string::*;
use vstd::utf8::encode_utf8;

use crate::config::{
    current_at, library_at, the_chosen_library_is_in_use, AppConfig, LibraryConfig,
};
use crate::encoding::{decode, uncoded};
use crate::paths::{join_path, path_in};
use crate::seqs::{
    arrange, arranged_is_sorted, chosen_places, filter_none, filter_step, map_push, picked,
    sorted_by, take_all,
};
use crate::sorting::{
    key_le, key_views, order_is_stable_sort, order_of, text_le, KeyView, SortKey,
};
use crate::sync::{has_book_extension, is_book_file};
use crate::text::{
    ascii_lower_all, blank, chars_of, clone_opt, dec, dec_u64, has_char, is_blank, lowercase,
    opt_str, same, split, split_cuts, split_nonempty, split_on, starts_with, string_of, strs,
    strs_push, to_ascii_lower, to_lower, trim, trimmed, utf8_lossy,
};
use crate::utils::{extension_of, file_name_of, name_extension, path_extension, path_name};

verus! {

// ---- dropped files ----

/// Whether a character may not stand in the name of a file.
pub open spec fn is_unsafe_char(c: char) -> bool {
    ||| (c as u32) < 32
    ||| 127 <= (c as u32) <= 159
    ||| c == '<'
    ||| c == '>'
    ||| c == ':'
    ||| c == '"'
    ||| c == '|'
    ||| c == '?'
    ||| c == '*'
}

/// `s` with `_` in place of the characters that may not stand in the name of a file.
pub open spec fn safe_chars(s: Seq<char>) -> Seq<char> {
    s.map_values(
        |c: char|
            if is_unsafe_char(c) {
                '_'
            } else {
                c
            },
    )
}

/// The name under which a dropped file is kept: the last part of its path, without unsafe
/// characters.
pub open spec fn safe_name(raw: Seq<char>) -> Seq<char> {
    let name = safe_chars(split_on(raw, seq!['/', '\\']).last());
    if is_blank(name) {
        "dropped.epub"@
    } else {
        name
    }
}

/// The name under which a dropped file is kept: the last part of its path, without unsafe
/// characters.
pub fn sanitize_name(raw: &str) -> (r: String)
    ensures
        r@ == safe_name(raw@),
{
    let marks: Vec<char> = vec!['/', '\\'];
    assert(marks@ =~= seq!['/', '\\']);
    let parts = split(raw, &marks);
    proof {
        let seps = seq!['/', '\\'];
        split_nonempty(raw@, |c: char| seps.contains(c));
        assert(strs(parts@).last() == parts@.last()@);
    }
    let v = chars_of(&parts[parts.len() - 1]);
    let ghost want = safe_chars(v@);
    let mut out: Vec<char> = Vec::new();
    let mut i: usize = 0;
    assert(out@ =~= want.take(0));
    while i < v.len()
        invariant
            i <= v@.len(),
            want == safe_chars(v@),
            out@ == want.take(i as int),
        decreases v@.len() - i,
    {
        let c = v[i];
        let n: u32 = c as u32;
        if n < 32 || (127 <= n && n <= 159) || c == '<' || c == '>' || c == ':' || c == '"' || c
            == '|' || c == '?' || c == '*' {
            out.push('_');
        } else {
            out.push(c);
        }
        i += 1;
        assert(out@ =~= want.take(i as int));
    }
    assert(want.take(v@.len() as int) =~= want);
    let name = string_of(&out);
    if blank(&name) {
        "dropped.epub".to_owned()
    } else {
        name
    }
}

/// A name that a dropped file is kept under has no separator and no unsafe character.
pub proof fn safe_name_is_safe(raw: Seq<char>, i: int)
    requires
        0 <= i < safe_name(raw).len(),
    ensures
        !is_unsafe_char(safe_name(raw)[i]),
        safe_name(raw)[i] != '/',
        safe_name(raw)[i] != '\\',
{
    reveal_strlit("dropped.epub");
    let seps = seq!['/', '\\'];
    let cut = |c: char| seps.contains(c);
    let parts = split_on(raw, seps);
    split_nonempty(raw, cut);
    split_cuts(raw, cut, parts.len() - 1);
    let part = parts.last();
    if !is_blank(safe_chars(part)) {
        assert(!cut(part[i]));
        assert(seps[0] == '/' && seps[1] == '\\');
        assert(seps.contains('/') && seps.contains('\\'));
    }
}

/// The name of a dropped file, which came percent-encoded.
pub fn dropped_name(header: &Option<String>) -> (r: String)
    ensures
        r@ == safe_name(
            match *header {
                Some(h) => utf8_lossy(uncoded(encode_utf8(h@))),
                None => Seq::empty(),
            },
        ),
{
    match header {
        Some(h) => sanitize_name(&decode(h)),
        None => {
            let none = String::new();
            assert(none@ =~= Seq::<char>::empty());
            sanitize_name(&none)
        },
    }
}

/// The name of the copy of dropped file `seq` of this run, taken at the second `now`.
pub fn dropped_copy_name(now: u64, seq: u64, name: &str) -> (r: String)
    ensures
        r@ == dec(now as nat) + "-"@ + dec(seq as nat) + "-"@ + name@,
{
    dec_u64(now).concat("-").concat(&dec_u64(seq)).concat("-").concat(name)
}

/// What a dropped file must be.
pub fn check_dropped(raw: bool, len: usize) -> (r: Result<(), String>)
    ensures
        match r {
            Ok(_) => raw && len > 0,
            Err(e) => if raw {
                len == 0 && e@ == "拖入的文件内容为空"@
            } else {
                e@ == "拖入内容编码不受支持"@
            },
        },
{
    if !raw {
        Err("拖入内容编码不受支持".to_owned())
    } else if len == 0 {
        Err("拖入的文件内容为空".to_owned())
    } else {
        Ok(())
    }
}

// ---- browsing ----

/// An entry of a directory.
#[derive(Debug)]
pub struct FsEntry {
    pub name: String,
    pub path: String,
    pub is_dir: bool,
    /// The size of a file.
    pub size: Option<u64>,
}

/// An entry of a directory.
#[verifier::ext_equal]
pub struct EntryView {
    pub name: Seq<char>,
    pub path: Seq<char>,
    pub is_dir: bool,
    pub size: Option<u64>,
}

impl View for FsEntry {
    type V = EntryView;

    open spec fn view(&self) -> EntryView {
        EntryView { name: self.name@, path: self.path@, is_dir: self.is_dir, size: self.size }
    }
}

/// What the entries are.
pub open spec fn entry_views(v: Seq<FsEntry>) -> Seq<EntryView> {
    v.map_values(|e: FsEntry| e@)
}

/// Whether an entry is shown: a name that starts with a dot is hidden.
pub open spec fn is_shown(e: EntryView) -> bool {
    !"."@.is_prefix_of(e.name)
}

/// What entries are sorted by: directories before files, then by name, whatever its case.
pub open spec fn entry_key(e: EntryView) -> KeyView {
    KeyView {
        text: (if e.is_dir {
            "0"@
        } else {
            "1"@
        }) + lowercase(e.name),
        a: 0,
        b: 0,
    }
}

/// The entries that are shown, in the order in which they are.
pub open spec fn listed(v: Seq<EntryView>) -> Seq<EntryView> {
    sorted_by(v.filter(|e: EntryView| is_shown(e)), |e: EntryView| entry_key(e))
}

fn copy_entry(e: &FsEntry) -> (r: FsEntry)
    ensures
        r@ == e@,
{
    FsEntry {
        name: e.name.as_str().to_owned(),
        path: e.path.as_str().to_owned(),
        is_dir: e.is_dir,
        size: e.size,
    }
}

/// The entries that are shown, in the order in which they are.
pub fn list_fs_dir(entries: &Vec<FsEntry>) -> (r: Vec<FsEntry>)
    ensures
        entry_views(r@) == listed(entry_views(entries@)),
{
    let ghost all = entry_views(entries@);
    let ghost f = |e: EntryView| is_shown(e);
    let ghost key = |e: EntryView| entry_key(e);
    let mut sel: Vec<usize> = Vec::new();
    let mut keys: Vec<SortKey> = Vec::new();
    let mut i: usize = 0;
    proof {
        filter_none(all, f);
        assert(picked(all, sel@) =~= all.take(0).filter(f));
        assert(key_views(keys@) =~= picked(all, sel@).map_values(key));
    }
    while i < entries.len()
        invariant
            i <= entries@.len(),
            all == entry_views(entries@),
            f == (|e: EntryView| is_shown(e)),
            key == (|e: EntryView| entry_key(e)),
            sel@.len() == keys@.len(),
            forall|k: int| 0 <= k < sel@.len() ==> (#[trigger] sel@[k]) < entries@.len(),
            picked(all, sel@) == all.take(i as int).filter(f),
            key_views(keys@) == picked(all, sel@).map_values(key),
        decreases entries@.len() - i,
    {
        let e = &entries[i];
        proof {
            filter_step(all, i as int, f);
            assert(all[i as int] == e@);
        }
        if !starts_with(&e.name, ".") {
            let ghost was = sel@;
            let ghost kwas = keys@;
            let head = if e.is_dir {
                "0".to_owned()
            } else {
                "1".to_owned()
            };
            let k = SortKey { text: head.concat(&to_lower(&e.name)), a: 0, b: 0 };
            sel.push(i);
            keys.push(k);
            proof {
                assert(picked(all, sel@) =~= picked(all, was).push(all[i as int]));
                assert(key_views(keys@) =~= key_views(kwas).push(k@));
                map_push(picked(all, was), all[i as int], key);
                assert(k@ == entry_key(all[i as int]));
            }
        }
        i += 1;
    }
    proof {
        take_all(all);
    }
    let order = arrange(&sel, &keys);
    proof {
        arranged_is_sorted(all, sel@, key_views(keys@), key, order@);
    }
    let ghost want = listed(all);
    assert(picked(all, order@) == want);
    assert(want.len() == order@.len());
    let mut out: Vec<FsEntry> = Vec::new();
    let mut j: usize = 0;
    assert(entry_views(out@) =~= want.take(0));
    while j < order.len()
        invariant
            j <= order@.len(),
            all == entry_views(entries@),
            picked(all, order@) == want,
            want.len() == order@.len(),
            forall|k: int| 0 <= k < sel@.len() ==> (#[trigger] sel@[k]) < entries@.len(),
            forall|k: int| 0 <= k < order@.len() ==> sel@.contains(#[trigger] order@[k]),
            entry_views(out@) == want.take(j as int),
        decreases order@.len() - j,
    {
        assert(sel@.contains(order@[j as int]));
        let c = copy_entry(&entries[order[j]]);
        let ghost was = out@;
        out.push(c);
        proof {
            assert(want[j as int] == all[order@[j as int] as int]);
            assert(entry_views(out@) =~= entry_views(was).push(c@));
        }
        j += 1;
        assert(entry_views(out@) =~= want.take(j as int));
    }
    assert(want.take(order@.len() as int) =~= want);
    out
}

/// A directory is never listed behind a file.
pub proof fn directories_come_first(v: Seq<EntryView>, i: int, j: int)
    requires
        0 <= i < j < listed(v).len(),
    ensures
        listed(v)[j].is_dir ==> listed(v)[i].is_dir,
{
    let s = v.filter(|e: EntryView| is_shown(e));
    let key = |e: EntryView| entry_key(e);
    let keys = s.map_values(key);
    let o = order_of(keys);
    order_is_stable_sort(keys);
    assert(key_le(keys[o[i]], keys[o[j]]));
    assert(0 <= o[i] < keys.len() && 0 <= o[j] < keys.len());
    let x = listed(v)[i];
    let y = listed(v)[j];
    assert(keys[o[i]] == entry_key(x) && keys[o[j]] == entry_key(y));
    reveal_strlit("0");
    reveal_strlit("1");
    let a = entry_key(x).text;
    let b = entry_key(y).text;
    assert(a[0] == (if x.is_dir {
        '0'
    } else {
        '1'
    }));
    assert(b[0] == (if y.is_dir {
        '0'
    } else {
        '1'
    }));
    assert(a == b || text_le(a, b));
}

/// The directory that is to be made in `parent`.
pub fn new_dir(parent: &str, name: &str) -> (r: Result<String, String>)
    ensures
        ({
            let n = trim(name@);
            let bad = n.contains('/') || n.contains('\\') || "."@.is_prefix_of(n);
            match r {
                Ok(p) => n.len() > 0 && !bad && p@ == path_in(trim(parent@), n),
                Err(e) => if n.len() == 0 {
                    e@ == "文件夹名不能为空"@
                } else {
                    bad && e@ == "文件夹名不能包含路径分隔符或以 . 开头"@
                },
            }
        }),
{
    let n = trimmed(name);
    if n.as_str().is_empty() {
        return Err("文件夹名不能为空".to_owned());
    }
    if has_char(&n, '/') || has_char(&n, '\\') || starts_with(&n, ".") {
        return Err("文件夹名不能包含路径分隔符或以 . 开头".to_owned());
    }
    Ok(join_path(&trimmed(parent), &n))
}

/// What paths are sorted by.
pub open spec fn path_key(p: Seq<char>) -> KeyView {
    KeyView { text: p, a: 0, b: 0 }
}

/// Whether the file at `path` is a book by its extension.
pub open spec fn is_book_path(path: Seq<char>) -> bool {
    match path_name(path) {
        Some(n) => has_book_extension(n),
        None => false,
    }
}

/// The books among the files, in the order of their paths.
pub open spec fn books_among(paths: Seq<Seq<char>>) -> Seq<Seq<char>> {
    sorted_by(paths.filter(|p: Seq<char>| is_book_path(p)), |p: Seq<char>| path_key(p))
}

fn book_path(path: &str) -> (r: bool)
    ensures
        r == is_book_path(path@),
{
    match file_name_of(path) {
        Some(n) => is_book_file(&n),
        None => false,
    }
}

/// The books among the files, in the order of their paths.
pub fn collect_epubs(paths: &Vec<String>) -> (r: Vec<String>)
    ensures
        strs(r@) == books_among(strs(paths@)),
{
    let ghost all = strs(paths@);
    let ghost f = |p: Seq<char>| is_book_path(p);
    let ghost key = |p: Seq<char>| path_key(p);
    let mut sel: Vec<usize> = Vec::new();
    let mut keys: Vec<SortKey> = Vec::new();
    let mut i: usize = 0;
    proof {
        filter_none(all, f);
        assert(picked(all, sel@) =~= all.take(0).filter(f));
        assert(key_views(keys@) =~= picked(all, sel@).map_values(key));
    }
    while i < paths.len()
        invariant
            i <= paths@.len(),
            all == strs(paths@),
            f == (|p: Seq<char>| is_book_path(p)),
            key == (|p: Seq<char>| path_key(p)),
            sel@.len() == keys@.len(),
            forall|k: int| 0 <= k < sel@.len() ==> (#[trigger] sel@[k]) < paths@.len(),
            picked(all, sel@) == all.take(i as int).filter(f),
            key_views(keys@) == picked(all, sel@).map_values(key),
        decreases paths@.len() - i,
    {
        proof {
            filter_step(all, i as int, f);
            assert(all[i as int] == paths@[i as int]@);
        }
        if book_path(&paths[i]) {
            let ghost was = sel@;
            let ghost kwas = keys@;
            let k = SortKey { text: paths[i].as_str().to_owned(), a: 0, b: 0 };
            sel.push(i);
            keys.push(k);
            proof {
                assert(picked(all, sel@) =~= picked(all, was).push(all[i as int]));
                assert(key_views(keys@) =~= key_views(kwas).push(k@));
                map_push(picked(all, was), all[i as int], key);
                assert(k@ == path_key(all[i as int]));
            }
        }
        i += 1;
    }
    proof {
        take_all(all);
    }
    let order = arrange(&sel, &keys);
    proof {
        arranged_is_sorted(all, sel@, key_views(keys@), key, order@);
    }
    let ghost want = books_among(all);
    assert(picked(all, order@) == want);
    assert(want.len() == order@.len());
    let mut out: Vec<String> = Vec::new();
    let mut j: usize = 0;
    assert(strs(out@) =~= want.take(0));
    while j < order.len()
        invariant
            j <= order@.len(),
            all == strs(paths@),
            picked(all, order@) == want,
            want.len() == order@.len(),
            forall|k: int| 0 <= k < sel@.len() ==> (#[trigger] sel@[k]) < paths@.len(),
            forall|k: int| 0 <= k < order@.len() ==> sel@.contains(#[trigger] order@[k]),
            strs(out@) == want.take(j as int),
        decreases order@.len() - j,
    {
        assert(sel@.contains(order@[j as int]));
        let p = paths[order[j]].as_str().to_owned();
        proof {
            strs_push(out@, p);
            assert(want[j as int] == all[order@[j as int] as int]);
        }
        out.push(p);
        j += 1;
        assert(strs(out@) =~= want.take(j as int));
    }
    assert(want.take(order@.len() as int) =~= want);
    out
}

// ---- pictures ----

/// Whether an extension is that of a picture that can be a cover.
pub open spec fn is_cover_extension(e: Seq<char>) -> bool {
    e == "jpg"@ || e == "jpeg"@ || e == "png"@ || e == "webp"@
}

/// The extension of a picture that is to be a cover.
pub fn cover_upload_extension(path: &str) -> (r: Result<String, String>)
    ensures
        match r {
            Ok(e) => path_extension(path@) matches Some(x) && is_cover_extension(lowercase(x))
                && e@ == (if lowercase(x) == "jpeg"@ {
                "jpg"@
            } else {
                lowercase(x)
            }),
            Err(t) => match path_extension(path@) {
                Some(x) => !is_cover_extension(lowercase(x)) && t@ == "不支持的图片格式 ."@ + lowercase(x)
                    + "（仅支持 jpg/png/webp）"@,
                None => t@ == "不支持的图片格式"@,
            },
        },
{
    match extension_of(path) {
        Some(x) => {
            let e = to_lower(&x);
            if same(&e, "jpeg") {
                Ok("jpg".to_owned())
            } else if same(&e, "jpg") || same(&e, "png") || same(&e, "webp") {
                Ok(e)
            } else {
                Err("不支持的图片格式 .".to_owned().concat(&e).concat("（仅支持 jpg/png/webp）"))
            }
        },
        None => Err("不支持的图片格式".to_owned()),
    }
}

/// Whether a cover file may be shown, by its extension.
pub open spec fn shows_as_cover(path: Seq<char>) -> bool {
    match path_extension(path) {
        Some(x) => {
            let e = ascii_lower_all(x);
            e == "jpg"@ || e == "jpeg"@ || e == "png"@ || e == "webp"@ || e == "gif"@
        },
        None => false,
    }
}

/// Whether a cover file may be shown, by its extension.
pub fn is_shown_cover(path: &str) -> (r: bool)
    ensures
        r == shows_as_cover(path@),
{
    match extension_of(path) {
        Some(x) => {
            let e = to_ascii_lower(&x);
            same(&e, "jpg") || same(&e, "jpeg") || same(&e, "png") || same(&e, "webp") || same(
                &e,
                "gif",
            )
        },
        None => false,
    }
}

/// The directories of covers: those of the libraries, and the one where covers are kept.
pub open spec fn cover_dirs(cfg: AppConfig) -> Seq<Seq<char>> {
    cfg.libraries@.map_values(|l: LibraryConfig| path_in(l.path@, "covers"@)) + match cfg.covers_path {
        Some(p) => seq![p@],
        None => match current_at(cfg.libraries@, opt_str(cfg.current_library)) {
            Some(i) => seq![path_in(cfg.libraries@[i].path@, "covers"@)],
            None => match cfg.library_path {
                Some(p) => seq![path_in(p@, "covers"@)],
                None => Seq::empty(),
            },
        },
    }
}

/// The directories from which covers are shown.
pub fn cover_scopes(cfg: &AppConfig) -> (r: Vec<String>)
    ensures
        strs(r@) == cover_dirs(*cfg),
{
    let ghost all = cfg.libraries@.map_values(|l: LibraryConfig| path_in(l.path@, "covers"@));
    let mut out: Vec<String> = Vec::new();
    let mut i: usize = 0;
    assert(strs(out@) =~= all.take(0));
    while i < cfg.libraries.len()
        invariant
            i <= cfg.libraries@.len(),
            all == cfg.libraries@.map_values(|l: LibraryConfig| path_in(l.path@, "covers"@)),
            strs(out@) == all.take(i as int),
        decreases cfg.libraries@.len() - i,
    {
        let d = join_path(&cfg.libraries[i].path, "covers");
        proof {
            strs_push(out@, d);
        }
        out.push(d);
        assert(all.take(i + 1) =~= all.take(i as int).push(all[i as int]));
        i += 1;
    }
    assert(all.take(all.len() as int) =~= all);
    match &cfg.covers_path {
        Some(p) => {
            let d = p.as_str().to_owned();
            proof {
                strs_push(out@, d);
            }
            out.push(d);
            assert(strs(out@) =~= all + seq![d@]);
        },
        None => match cfg.require_library_path() {
            Ok(l) => {
                let d = cfg.covers_dir(&l);
                proof {
                    strs_push(out@, d);
                }
                out.push(d);
                assert(strs(out@) =~= all + seq![d@]);
            },
            Err(_) => {
                assert(strs(out@) =~= all + Seq::<Seq<char>>::empty());
            },
        },
    }
    out
}

/// Whether a path lies in a directory or is it, both by their components.
pub open spec fn lies_in(path: Seq<Seq<char>>, dir: Seq<Seq<char>>) -> bool {
    dir.len() <= path.len() && path.take(dir.len() as int) == dir
}

/// Whether a path lies in one of the directories.
pub open spec fn lies_in_one(path: Seq<Seq<char>>, dirs: Seq<Vec<String>>) -> bool {
    exists|i: int| 0 <= i < dirs.len() && lies_in(path, strs((#[trigger] dirs[i])@))
}

/// Whether a path lies in a directory or is it, both by their components.
pub fn path_lies_in(path: &Vec<String>, dir: &Vec<String>) -> (r: bool)
    ensures
        r == lies_in(strs(path@), strs(dir@)),
{
    if dir.len() > path.len() {
        return false;
    }
    let ghost p = strs(path@).take(dir@.len() as int);
    let mut i: usize = 0;
    while i < dir.len()
        invariant
            i <= dir@.len() <= path@.len(),
            p == strs(path@).take(dir@.len() as int),
            forall|k: int| 0 <= k < i ==> p[k] == #[trigger] strs(dir@)[k],
        decreases dir@.len() - i,
    {
        assert(p[i as int] == path@[i as int]@);
        assert(strs(dir@)[i as int] == dir@[i as int]@);
        if !same(&path[i], &dir[i]) {
            return false;
        }
        i += 1;
    }
    assert(p =~= strs(dir@));
    true
}

/// Checks that a cover file may be shown: it is there, lies in a directory of covers, and is a
/// picture. `place` is the components of where it really is, where it is there.
pub fn check_cover(path: &str, place: &Option<Vec<String>>, dirs: &Vec<Vec<String>>) -> (r: Result<
    (),
    String,
>)
    ensures
        match *place {
            None => r matches Err(e) && e@ == "封面文件不存在"@,
            Some(p) => if !lies_in_one(strs(p@), dirs@) {
                r matches Err(e) && e@ == "路径不在封面缓存目录内"@
            } else if !shows_as_cover(trim(path@)) {
                r matches Err(e) && e@ == "不支持的图片格式"@
            } else {
                r is Ok
            },
        },
{
    let p = match place {
        Some(p) => p,
        None => {
            return Err("封面文件不存在".to_owned());
        },
    };
    let mut inside = false;
    let mut i: usize = 0;
    while i < dirs.len()
        invariant
            i <= dirs@.len(),
            inside == (exists|k: int|
                0 <= k < i && lies_in(strs(p@), strs((#[trigger] dirs@[k])@))),
        decreases dirs@.len() - i,
    {
        if path_lies_in(p, &dirs[i]) {
            inside = true;
        }
        i += 1;
    }
    if !inside {
        return Err("路径不在封面缓存目录内".to_owned());
    }
    if !is_shown_cover(&trimmed(path)) {
        return Err("不支持的图片格式".to_owned());
    }
    Ok(())
}

// ---- the file of a book ----

/// The directory of the library of a book: its own, else the one in use, else the one that
/// is set apart from the libraries.
pub open spec fn book_dir(cfg: AppConfig, library: Option<Seq<char>>) -> Option<Seq<char>> {
    match library_at(cfg.libraries@, library) {
        Some(i) => Some(cfg.libraries@[i].path@),
        None => match library_at(cfg.libraries@, opt_str(cfg.current_library)) {
            Some(i) => Some(cfg.libraries@[i].path@),
            None => opt_str(cfg.library_path),
        },
    }
}

/// Where the file of a book may be, in the order in which it is looked for.
pub open spec fn epub_places(
    cfg: AppConfig,
    library_file: Seq<char>,
    file_path: Seq<char>,
    library: Option<Seq<char>>,
) -> Seq<Seq<char>> {
    let copy = match book_dir(cfg, library) {
        Some(d) => if is_blank(library_file) {
            Seq::empty()
        } else {
            seq![path_in(d, trim(library_file))]
        },
        None => Seq::empty(),
    };
    if is_blank(file_path) {
        copy
    } else {
        copy.push(file_path)
    }
}

fn dir_of_book(cfg: &AppConfig, library: &Option<String>) -> (r: Option<String>)
    ensures
        opt_str(r) == book_dir(*cfg, opt_str(*library)),
{
    proof {
        no_library_has_no_id(cfg.libraries@);
    }
    match library {
        Some(l) => match cfg.library_index(l) {
            Some(k) => {
                return Some(cfg.libraries[k].path.as_str().to_owned());
            },
            None => {},
        },
        None => {},
    }
    match &cfg.current_library {
        Some(l) => match cfg.library_index(l) {
            Some(k) => {
                return Some(cfg.libraries[k].path.as_str().to_owned());
            },
            None => {},
        },
        None => {},
    }
    clone_opt(&cfg.library_path)
}

proof fn no_library_has_no_id(libs: Seq<LibraryConfig>)
    ensures
        library_at(libs, None) is None,
    decreases libs.len(),
{
    if libs.len() > 0 {
        no_library_has_no_id(libs.drop_first());
    }
}

/// Where the file of a book may be, in the order in which it is looked for.
pub fn epub_candidates(
    cfg: &AppConfig,
    library_file: &str,
    file_path: &str,
    library: &Option<String>,
) -> (r: Vec<String>)
    ensures
        strs(r@) == epub_places(*cfg, library_file@, file_path@, opt_str(*library)),
{
    let mut out: Vec<String> = Vec::new();
    assert(strs(out@) =~= Seq::<Seq<char>>::empty());
    match dir_of_book(cfg, library) {
        Some(d) => {
            if !blank(library_file) {
                let p = join_path(&d, &trimmed(library_file));
                out.push(p);
                assert(strs(out@) =~= seq![p@]);
            }
        },
        None => {},
    }
    if !blank(file_path) {
        let p = file_path.to_owned();
        proof {
            strs_push(out@, p);
        }
        out.push(p);
    }
    out
}

// ---- where browsing begins ----

/// The directories where browsing begins: the public storage of a phone and the data
/// directory that was set there; none on a desktop, which has a dialog of its own.
pub open spec fn roots(mobile: bool, data_dir: Option<Seq<char>>) -> Seq<Seq<char>> {
    if mobile {
        let public = seq!["/storage/emulated/0"@, "/sdcard"@];
        match data_dir {
            Some(d) => public.push(d),
            None => public,
        }
    } else {
        Seq::empty()
    }
}

/// The directories where browsing begins, with the data directory that was set.
pub fn fs_roots(mobile: bool, data_dir: &Option<String>) -> (r: Vec<String>)
    ensures
        strs(r@) == roots(mobile, opt_str(*data_dir)),
{
    let mut out: Vec<String> = Vec::new();
    if mobile {
        out.push("/storage/emulated/0".to_owned());
        out.push("/sdcard".to_owned());
        assert(strs(out@) =~= seq!["/storage/emulated/0"@, "/sdcard"@]);
        if let Some(d) = data_dir {
            let d = d.as_str().to_owned();
            proof {
                strs_push(out@, d);
            }
            out.push(d);
        }
    }
    assert(strs(out@) =~= roots(mobile, opt_str(*data_dir)));
    out
}

/// The books among files are those whose extension is `epub`, all and once each, in the order of
/// their paths.
pub proof fn books_are_listed_by_path(paths: Seq<Seq<char>>) -> (o: Seq<int>)
    ensures
        o.len() == books_among(paths).len(),
        o.no_duplicates(),
        forall|i: int|
            0 <= i < o.len() ==> 0 <= #[trigger] o[i] < paths.len() && books_among(paths)[i]
                == paths[o[i]] && is_book_path(paths[o[i]]),
        forall|p: int|
            0 <= p < paths.len() && is_book_path(#[trigger] paths[p]) ==> o.contains(p),
        forall|i: int, j: int|
            0 <= i < j < o.len() ==> paths[#[trigger] o[i]] == paths[#[trigger] o[j]] || text_le(
                paths[o[i]],
                paths[o[j]],
            ),
{
    chosen_places(paths, |p: Seq<char>| is_book_path(p), |p: Seq<char>| path_key(p))
}

/// A path is that of a book where the name it ends in has the extension `epub`, be the letters
/// small or capital.
pub proof fn which_paths_are_books(path: Seq<char>)
    ensures
        is_book_path(path) <==> (path_name(path) matches Some(n) && name_extension(n) matches Some(
            e,
        ) && ascii_lower_all(e) == "epub"@),
{
    reveal_strlit("epub");
    assert(ascii_lower_all("epub"@) =~= "epub"@);
}

/// The entries of a directory that are shown are all whose names begin with no dot, once each,
/// directories before files, and each by name, be the letters small or capital.
pub proof fn entries_are_listed_by_name(v: Seq<EntryView>) -> (o: Seq<int>)
    ensures
        o.len() == listed(v).len(),
        o.no_duplicates(),
        forall|i: int|
            0 <= i < o.len() ==> 0 <= #[trigger] o[i] < v.len() && listed(v)[i] == v[o[i]] && !(
            v[o[i]].name.len() > 0 && v[o[i]].name[0] == '.'),
        forall|p: int|
            0 <= p < v.len() && !((#[trigger] v[p]).name.len() > 0 && v[p].name[0] == '.')
                ==> o.contains(p),
        forall|i: int, j: int|
            0 <= i < j < o.len() && v[#[trigger] o[i]].is_dir == v[#[trigger] o[j]].is_dir
                ==> lowercase(v[o[i]].name) == lowercase(v[o[j]].name) || text_le(
                lowercase(v[o[i]].name),
                lowercase(v[o[j]].name),
            ),
{
    let f = |e: EntryView| is_shown(e);
    let key = |e: EntryView| entry_key(e);
    let o = chosen_places(v, f, key);
    reveal_strlit(".");
    reveal_strlit("0");
    reveal_strlit("1");
    assert forall|e: EntryView| #[trigger] is_shown(e) <==> !(e.name.len() > 0 && e.name[0]
        == '.') by {
        if e.name.len() > 0 {
            assert(e.name.subrange(0, 1)[0] == e.name[0]);
            if e.name[0] == '.' {
                assert("."@ =~= e.name.subrange(0, 1));
            } else if "."@.is_prefix_of(e.name) {
                assert("."@[0] == e.name[0]);
            }
        }
    }
    assert forall|i: int| 0 <= i < o.len() implies 0 <= #[trigger] o[i] < v.len() && listed(v)[i]
        == v[o[i]] && !(v[o[i]].name.len() > 0 && v[o[i]].name[0] == '.') by {
        assert(f(v[o[i]]));
        assert(is_shown(v[o[i]]));
    }
    assert forall|p: int|
        0 <= p < v.len() && !((#[trigger] v[p]).name.len() > 0 && v[p].name[0] == '.') implies o.contains(
        p,
    ) by {
        assert(is_shown(v[p]));
        assert(f(v[p]));
    }
    assert forall|i: int, j: int|
        0 <= i < j < o.len() && v[#[trigger] o[i]].is_dir == v[#[trigger] o[j]].is_dir implies lowercase(
        v[o[i]].name,
    ) == lowercase(v[o[j]].name) || text_le(lowercase(v[o[i]].name), lowercase(v[o[j]].name)) by {
        let x = v[o[i]];
        let y = v[o[j]];
        let a = entry_key(x).text;
        let b = entry_key(y).text;
        assert(key_le(key(x), key(y)));
        assert(a.drop_first() =~= lowercase(x.name));
        assert(b.drop_first() =~= lowercase(y.name));
        if a != b {
            assert(text_le(a, b));
            assert(a[0] == b[0]);
        }
    }
    o
}

/// The file of a book is looked for in its library, or in the one in use where it has none, under
/// the name that it has there; and then where it was taken from.
pub proof fn where_a_book_is_looked_for(
    cfg: AppConfig,
    library_file: Seq<char>,
    file_path: Seq<char>,
    library: Option<Seq<char>>,
    i: int,
)
    requires
        0 <= i < cfg.libraries@.len(),
        library == Some(cfg.libraries@[i].id@),
        forall|j: int| 0 <= j < i ==> library != Some((#[trigger] cfg.libraries@[j]).id@),
    ensures
        !is_blank(library_file) && !is_blank(file_path) ==> epub_places(
            cfg,
            library_file,
            file_path,
            library,
        ) == seq![path_in(cfg.libraries@[i].path@, trim(library_file)), file_path],
        !is_blank(library_file) && is_blank(file_path) ==> epub_places(
            cfg,
            library_file,
            file_path,
            library,
        ) == seq![path_in(cfg.libraries@[i].path@, trim(library_file))],
        is_blank(library_file) && !is_blank(file_path) ==> epub_places(
            cfg,
            library_file,
            file_path,
            library,
        ) == seq![file_path],
{
    the_chosen_library_is_in_use(cfg.libraries@, library);
    match library_at(cfg.libraries@, library) {
        Some(k) => {
            if k < i {
                assert(library != Some(cfg.libraries@[k].id@));
            }
        },
        None => {},
    }
    let r = epub_places(cfg, library_file, file_path, library);
    if !is_blank(library_file) && !is_blank(file_path) {
        assert(r =~= seq![path_in(cfg.libraries@[i].path@, trim(library_file)), file_path]);
    } else if is_blank(library_file) && !is_blank(file_path) {
        assert(r =~= seq![file_path]);
    }
}

/// A cover may be read where it lies in the directory of covers of a library, or where covers are
/// kept.
pub proof fn covers_of_every_library_may_be_read(cfg: AppConfig, i: int)
    ensures
        0 <= i < cfg.libraries@.len() ==> cover_dirs(cfg).contains(
            path_in(cfg.libraries@[i].path@, "covers"@),
        ),
        cfg.covers_path matches Some(p) ==> cover_dirs(cfg).contains(p@),
        cfg.libraries@.len() == 0 && cfg.covers_path is None && cfg.library_path is Some
            ==> cover_dirs(cfg).contains(path_in((cfg.library_path->0)@, "covers"@)),
{
    let d = cover_dirs(cfg);
    if 0 <= i < cfg.libraries@.len() {
        assert(d[i] == path_in(cfg.libraries@[i].path@, "covers"@));
    }
    let n = cfg.libraries@.len() as int;
    if cfg.covers_path is Some {
        assert(d[n] == (cfg.covers_path->0)@);
    } else if n == 0 && cfg.library_path is Some {
        assert(d[n] == path_in((cfg.library_path->0)@, "covers"@));
    }
}

/// Browsing begins, on a phone, at its public storage and at the directory that was set; on a
/// desktop nowhere.
pub proof fn where_browsing_begins(data_dir: Option<Seq<char>>)
    ensures
        roots(false, data_dir).len() == 0,
        roots(true, None) == seq!["/storage/emulated/0"@, "/sdcard"@],
        data_dir matches Some(d) ==> roots(true, data_dir) == seq![
            "/storage/emulated/0"@,
            "/sdcard"@,
            d,
        ],
{
}

/// A path lies in a directory where its first components are those of the directory: the
/// directory itself does, and all below it.
pub proof fn what_lies_in_a_directory(dir: Seq<Seq<char>>, below: Seq<Seq<char>>, path: Seq<Seq<char>>)
    ensures
        lies_in(dir + below, dir),
        lies_in(path, dir) ==> path == dir + path.skip(dir.len() as int),
{
    assert((dir + below).take(dir.len() as int) =~= dir);
    if lies_in(path, dir) {
        assert(path =~= path.take(dir.len() as int) + path.skip(dir.len() as int));
    }
}

} // verus!
