//! The steps of a synchronisation, and what they add up to.
use vstd::prelude::*;
use vstd::string::*;

use crate::replace::ReplaceStats;
use crate::seqs::{
    arrange, arranged_is_sorted, chosen_places, filter_from, filter_none, filter_places,
    filter_step, picked, sorted_by,
};
use crate::sorting::{key_views, text_le, KeyView, SortKey};
use crate::text::{
    ascii_lower_all, chars_of, ends_with, lowercase, opt_str, same, same_ignore_case, strs,
    strs_push, to_lower,
};
use crate::utils::{extension_of_name, name_extension};
use crate::webdav::{
    distinct_names, file_at, find_file, remote_views, FileView, RemoteFile, SyncCancel,
};

verus! {

// ---- files of the library ----

/// A file of the library.
#[derive(Debug)]
pub struct LocalFile {
    pub name: String,
    pub path: String,
    pub size: u64,
}

/// A file of the library, by its characters.
pub struct LocalView {
    pub name: Seq<char>,
    pub path: Seq<char>,
    pub size: nat,
}

impl View for LocalFile {
    type V = LocalView;

    open spec fn view(&self) -> LocalView {
        LocalView { name: self.name@, path: self.path@, size: self.size as nat }
    }
}

/// The views of a list of files of the library.
pub open spec fn local_views(v: Seq<LocalFile>) -> Seq<LocalView> {
    v.map_values(|f: LocalFile| f@)
}

/// Whether the extension of a file is that of a book.
pub open spec fn has_book_extension(name: Seq<char>) -> bool {
    match name_extension(name) {
        Some(e) => ascii_lower_all(e) == ascii_lower_all("epub"@),
        None => false,
    }
}

/// Whether the extension of a file is that of a book.
pub fn is_book_file(name: &str) -> (r: bool)
    ensures
        r == has_book_extension(name@),
{
    match extension_of_name(name) {
        Some(e) => same_ignore_case(&e, "epub"),
        None => false,
    }
}

/// By name.
pub open spec fn by_name(f: LocalView) -> KeyView {
    KeyView { text: f.name, a: 0, b: 0 }
}

fn copy_file(f: &LocalFile) -> (r: LocalFile)
    ensures
        r@ == f@,
{
    LocalFile {
        name: f.name.as_str().to_owned(),
        path: f.path.as_str().to_owned(),
        size: f.size,
    }
}

/// The files by name.
pub fn sorted_files(files: &Vec<LocalFile>) -> (r: Vec<LocalFile>)
    ensures
        local_views(r@) == sorted_by(local_views(files@), |f: LocalView| by_name(f)),
{
    let ghost all = local_views(files@);
    let ghost key = |f: LocalView| by_name(f);
    let mut sel: Vec<usize> = Vec::new();
    let mut keys: Vec<SortKey> = Vec::new();
    let mut i: usize = 0;
    assert(key_views(keys@) =~= all.take(0).map_values(key));
    while i < files.len()
        invariant
            i <= files@.len(),
            all == local_views(files@),
            key == |f: LocalView| by_name(f),
            sel@.len() == i,
            keys@.len() == i,
            forall|k: int| 0 <= k < sel@.len() ==> (#[trigger] sel@[k]) == k,
            key_views(keys@) == all.take(i as int).map_values(key),
        decreases files@.len() - i,
    {
        assert(all[i as int] == files@[i as int]@);
        let ghost kwas = keys@;
        let k = SortKey { text: files[i].name.as_str().to_owned(), a: 0, b: 0 };
        sel.push(i);
        keys.push(k);
        i += 1;
        assert(key_views(keys@) =~= key_views(kwas).push(k@));
        assert(key_views(keys@) =~= all.take(i as int).map_values(key));
    }
    assert(all.take(files@.len() as int) =~= all);
    assert(picked(all, sel@) =~= all);
    let order = arrange(&sel, &keys);
    proof {
        arranged_is_sorted(all, sel@, key_views(keys@), key, order@);
    }
    let ghost want = picked(all, order@);
    let mut out: Vec<LocalFile> = Vec::new();
    let mut j: usize = 0;
    assert(local_views(out@) =~= want.take(0));
    while j < order.len()
        invariant
            j <= order@.len(),
            all == local_views(files@),
            want == picked(all, order@),
            sel@.len() == files@.len(),
            forall|k: int| 0 <= k < sel@.len() ==> (#[trigger] sel@[k]) == k,
            forall|k: int| 0 <= k < order@.len() ==> sel@.contains(#[trigger] order@[k]),
            local_views(out@) == want.take(j as int),
        decreases order@.len() - j,
    {
        assert(sel@.contains(order@[j as int]));
        let c = copy_file(&files[order[j]]);
        let ghost was = out@;
        out.push(c);
        proof {
            assert(local_views(out@) =~= local_views(was).push(c@));
            assert(want[j as int] == all[order@[j as int] as int]);
            assert(want.take(j + 1) =~= want.take(j as int).push(want[j as int]));
        }
        j += 1;
    }
    assert(want.len() == order@.len());
    assert(want.take(order@.len() as int) =~= want);
    out
}

/// The books among the files of a directory, by name.
pub open spec fn books_among(files: Seq<LocalView>) -> Seq<LocalView> {
    sorted_by(
        files.filter(|f: LocalView| has_book_extension(f.name)),
        |f: LocalView| by_name(f),
    )
}

/// The books among the files of a directory, by name.
pub fn collect_local_epubs(files: &Vec<LocalFile>) -> (r: Vec<LocalFile>)
    ensures
        local_views(r@) == books_among(local_views(files@)),
{
    let ghost all = local_views(files@);
    let ghost f = |f: LocalView| has_book_extension(f.name);
    let mut out: Vec<LocalFile> = Vec::new();
    let mut i: usize = 0;
    proof {
        filter_none(all, f);
        assert(local_views(out@) =~= all.take(0).filter(f));
    }
    while i < files.len()
        invariant
            i <= files@.len(),
            all == local_views(files@),
            f == |f: LocalView| has_book_extension(f.name),
            local_views(out@) == all.take(i as int).filter(f),
        decreases files@.len() - i,
    {
        assert(all[i as int] == files@[i as int]@);
        proof {
            filter_step(all, i as int, f);
        }
        if is_book_file(&files[i].name) {
            let c = copy_file(&files[i]);
            let ghost was = out@;
            out.push(c);
            assert(local_views(out@) =~= local_views(was).push(c@));
        }
        i += 1;
    }
    assert(all.take(files@.len() as int) =~= all);
    sorted_files(&out)
}

/// Whether one of the files has the name.
pub open spec fn has_local(files: Seq<LocalView>, name: Seq<char>) -> bool {
    exists|i: int| 0 <= i < files.len() && (#[trigger] files[i]).name == name
}

/// Whether one of the files has the name.
pub fn local_has(files: &Vec<LocalFile>, name: &str) -> (r: bool)
    ensures
        r == has_local(local_views(files@), name@),
{
    let ghost all = local_views(files@);
    let mut i: usize = 0;
    while i < files.len()
        invariant
            i <= files@.len(),
            all == local_views(files@),
            forall|j: int| 0 <= j < i ==> (#[trigger] all[j]).name != name@,
        decreases files@.len() - i,
    {
        assert(all[i as int] == files@[i as int]@);
        if same(&files[i].name, name) {
            return true;
        }
        i += 1;
    }
    false
}

/// Whether a name begins with a dot.
pub open spec fn is_hidden(name: Seq<char>) -> bool {
    name.len() > 0 && name[0] == '.'
}

fn hidden(name: &str) -> (r: bool)
    ensures
        r == is_hidden(name@),
{
    let v = chars_of(name);
    v.len() > 0 && v[0] == '.'
}

/// The files with those of `more` that are not hidden and have a name of their own.
pub open spec fn with_covers(files: Seq<LocalView>, more: Seq<LocalView>) -> Seq<LocalView>
    decreases more.len(),
{
    if more.len() == 0 {
        files
    } else {
        let before = with_covers(files, more.drop_last());
        let f = more.last();
        if is_hidden(f.name) || has_local(before, f.name) {
            before
        } else {
            before.push(f)
        }
    }
}

fn add_covers(out: &mut Vec<LocalFile>, more: &Vec<LocalFile>)
    ensures
        local_views(final(out)@) == with_covers(local_views(old(out)@), local_views(more@)),
{
    let ghost start = local_views(out@);
    let ghost all = local_views(more@);
    let mut i: usize = 0;
    assert(all.take(0) =~= Seq::<LocalView>::empty());
    while i < more.len()
        invariant
            i <= more@.len(),
            all == local_views(more@),
            local_views(out@) == with_covers(start, all.take(i as int)),
        decreases more@.len() - i,
    {
        assert(all.take(i + 1).drop_last() =~= all.take(i as int));
        assert(all.take(i + 1).last() == more@[i as int]@);
        if !hidden(&more[i].name) && !local_has(out, &more[i].name) {
            let c = copy_file(&more[i]);
            let ghost was = out@;
            out.push(c);
            assert(local_views(out@) =~= local_views(was).push(c@));
        }
        i += 1;
    }
    assert(all.take(more@.len() as int) =~= all);
}

/// The covers of a library by name: those in its directory of covers, and those in the other
/// directory whose names are not there. Hidden files do not count.
pub fn collect_push_covers(main: &Vec<LocalFile>, other: &Vec<LocalFile>) -> (r: Vec<LocalFile>)
    ensures
        local_views(r@) == sorted_by(
            with_covers(with_covers(Seq::empty(), local_views(main@)), local_views(other@)),
            |f: LocalView| by_name(f),
        ),
{
    let mut all: Vec<LocalFile> = Vec::new();
    assert(local_views(all@) =~= Seq::<LocalView>::empty());
    add_covers(&mut all, main);
    add_covers(&mut all, other);
    sorted_files(&all)
}

// ---- steps ----

/// What a step does.
#[derive(Debug, Clone, Copy, PartialEq, Eq, Structural)]
pub enum Act {
    Upload,
    Download,
    /// Both sides hold the same.
    Skip,
    DeleteRemote,
    DeleteLocal,
}

/// What a step is about.
#[derive(Debug, Clone, Copy, PartialEq, Eq, Structural)]
pub enum Area {
    Epub,
    Cover,
}

/// A step of a synchronisation.
#[derive(Debug)]
pub struct SyncStep {
    pub act: Act,
    pub area: Area,
    pub name: String,
    /// The file of the library.
    pub path: String,
    pub size: u64,
}

/// A step of a synchronisation, by its characters.
pub struct StepView {
    pub act: Act,
    pub area: Area,
    pub name: Seq<char>,
    pub path: Seq<char>,
    pub size: nat,
}

impl View for SyncStep {
    type V = StepView;

    open spec fn view(&self) -> StepView {
        StepView {
            act: self.act,
            area: self.area,
            name: self.name@,
            path: self.path@,
            size: self.size as nat,
        }
    }
}

/// The views of a list of steps.
pub open spec fn step_views(v: Seq<SyncStep>) -> Seq<StepView> {
    v.map_values(|s: SyncStep| s@)
}

/// The size of the file `name`.
pub open spec fn size_of(files: Seq<FileView>, name: Seq<char>) -> Option<nat> {
    match file_at(files, name) {
        Some(i) => Some(files[i].size),
        None => None,
    }
}

/// Whether a synchronisation is about the files of this name.
pub open spec fn is_ours(area: Area, name: Seq<char>) -> bool {
    match area {
        Area::Epub => ".epub"@.is_suffix_of(lowercase(name)),
        Area::Cover => !is_hidden(name),
    }
}

/// Whether a synchronisation is about the files of this name.
pub fn ours(area: Area, name: &str) -> (r: bool)
    ensures
        r == is_ours(area, name@),
{
    match area {
        Area::Epub => ends_with(&to_lower(name), ".epub"),
        Area::Cover => !hidden(name),
    }
}

/// The step that brings a file of the library to the server.
pub open spec fn upload_step(f: LocalView, remote: Seq<FileView>, area: Area) -> StepView {
    StepView {
        act: if f.size > 0 && size_of(remote, f.name) == Some(f.size) {
            Act::Skip
        } else {
            Act::Upload
        },
        area,
        name: f.name,
        path: f.path,
        size: f.size,
    }
}

/// The step that takes a file off the server.
pub open spec fn remove_step(f: FileView, area: Area) -> StepView {
    StepView { act: Act::DeleteRemote, area, name: f.name, path: Seq::empty(), size: f.size }
}

/// The files on the server that the library does not have.
pub open spec fn left_over(local: Seq<LocalView>, remote: Seq<FileView>, area: Area) -> Seq<
    FileView,
> {
    remote.filter(|f: FileView| is_ours(area, f.name) && !has_local(local, f.name))
}

/// The steps that make the server hold what the library holds.
pub open spec fn push_steps(local: Seq<LocalView>, remote: Seq<FileView>, area: Area) -> Seq<
    StepView,
> {
    local.map_values(|f: LocalView| upload_step(f, remote, area)) + left_over(
        local,
        remote,
        area,
    ).map_values(|f: FileView| remove_step(f, area))
}

fn push_area(local: &Vec<LocalFile>, remote: &Vec<RemoteFile>, area: Area) -> (r: Vec<SyncStep>)
    ensures
        step_views(r@) == push_steps(local_views(local@), remote_views(remote@), area),
{
    let ghost ls = local_views(local@);
    let ghost rs = remote_views(remote@);
    let ghost up = |f: LocalView| upload_step(f, rs, area);
    let ghost down = |f: FileView| remove_step(f, area);
    let ghost extra = |f: FileView| is_ours(area, f.name) && !has_local(ls, f.name);
    let mut out: Vec<SyncStep> = Vec::new();
    let mut i: usize = 0;
    assert(step_views(out@) =~= ls.take(0).map_values(up));
    while i < local.len()
        invariant
            i <= local@.len(),
            ls == local_views(local@),
            rs == remote_views(remote@),
            up == |f: LocalView| upload_step(f, rs, area),
            step_views(out@) == ls.take(i as int).map_values(up),
        decreases local@.len() - i,
    {
        assert(ls[i as int] == local@[i as int]@);
        let same_size = match find_file(remote, &local[i].name) {
            Some(k) => {
                assert(rs[k as int] == remote@[k as int]@);
                remote[k].size == local[i].size
            },
            None => false,
        };
        let act = if local[i].size > 0 && same_size {
            Act::Skip
        } else {
            Act::Upload
        };
        let step = SyncStep {
            act,
            area,
            name: local[i].name.as_str().to_owned(),
            path: local[i].path.as_str().to_owned(),
            size: local[i].size,
        };
        assert(step@ == upload_step(ls[i as int], rs, area));
        let ghost was = out@;
        out.push(step);
        i += 1;
        proof {
            assert(step_views(out@) =~= step_views(was).push(step@));
            assert(ls.take(i as int).map_values(up) =~= ls.take(i - 1).map_values(up).push(
                up(ls[i - 1]),
            ));
        }
    }
    assert(ls.take(local@.len() as int) =~= ls);
    let ghost head = ls.map_values(up);
    let mut j: usize = 0;
    proof {
        filter_none(rs, extra);
        assert(step_views(out@) =~= head + rs.take(0).filter(extra).map_values(down));
    }
    while j < remote.len()
        invariant
            j <= remote@.len(),
            ls == local_views(local@),
            rs == remote_views(remote@),
            down == |f: FileView| remove_step(f, area),
            extra == |f: FileView| is_ours(area, f.name) && !has_local(ls, f.name),
            step_views(out@) == head + rs.take(j as int).filter(extra).map_values(down),
        decreases remote@.len() - j,
    {
        assert(rs[j as int] == remote@[j as int]@);
        proof {
            filter_step(rs, j as int, extra);
        }
        if ours(area, &remote[j].name) && !local_has(local, &remote[j].name) {
            let step = SyncStep {
                act: Act::DeleteRemote,
                area,
                name: remote[j].name.as_str().to_owned(),
                path: String::new(),
                size: remote[j].size,
            };
            assert(step@.path =~= Seq::<char>::empty());
            let ghost was = out@;
            let ghost before = rs.take(j as int).filter(extra);
            out.push(step);
            proof {
                assert(step_views(out@) =~= step_views(was).push(step@));
                assert(before.push(rs[j as int]).map_values(down) =~= before.map_values(down).push(
                    step@,
                ));
                assert(head + before.map_values(down).push(step@) =~= (head + before.map_values(
                    down,
                )).push(step@));
            }
        }
        j += 1;
    }
    assert(rs.take(remote@.len() as int) =~= rs);
    out
}

/// The step that brings a file of the server to the library.
pub open spec fn fetch_step(f: FileView, local: Seq<LocalView>, area: Area) -> StepView {
    StepView {
        act: if f.size > 0 && holds_same(local, f) {
            Act::Skip
        } else {
            Act::Download
        },
        area,
        name: f.name,
        path: Seq::empty(),
        size: f.size,
    }
}

/// Whether the library holds a file of this name and size.
pub open spec fn holds_same(local: Seq<LocalView>, f: FileView) -> bool {
    exists|i: int| 0 <= i < local.len() && (#[trigger] local[i]).name == f.name && local[i].size
        == f.size
}

/// The step that takes a file out of the library.
pub open spec fn discard_step(f: LocalView, area: Area) -> StepView {
    StepView { act: Act::DeleteLocal, area, name: f.name, path: f.path, size: f.size }
}

/// The files on the server that a synchronisation is about.
pub open spec fn remote_ours(remote: Seq<FileView>, area: Area) -> Seq<FileView> {
    remote.filter(|f: FileView| is_ours(area, f.name))
}

/// Whether one of the files on the server has the name.
pub open spec fn has_remote(files: Seq<FileView>, name: Seq<char>) -> bool {
    exists|i: int| 0 <= i < files.len() && (#[trigger] files[i]).name == name
}

/// The steps that bring the files of the server to the library.
pub open spec fn fetch_steps(local: Seq<LocalView>, remote: Seq<FileView>, area: Area) -> Seq<
    StepView,
> {
    remote_ours(remote, area).map_values(|f: FileView| fetch_step(f, local, area))
}

/// The steps that take the books out of the library that the server does not have.
pub open spec fn discard_steps(local: Seq<LocalView>, remote: Seq<FileView>) -> Seq<StepView> {
    local.filter(
        |f: LocalView| !has_remote(remote_ours(remote, Area::Epub), f.name),
    ).map_values(|f: LocalView| discard_step(f, Area::Epub))
}

fn local_holds(local: &Vec<LocalFile>, f: &RemoteFile) -> (r: bool)
    ensures
        r == holds_same(local_views(local@), f@),
{
    let ghost all = local_views(local@);
    let mut i: usize = 0;
    while i < local.len()
        invariant
            i <= local@.len(),
            all == local_views(local@),
            forall|j: int|
                0 <= j < i ==> !((#[trigger] all[j]).name == f@.name && all[j].size == f@.size),
        decreases local@.len() - i,
    {
        assert(all[i as int] == local@[i as int]@);
        if same(&local[i].name, &f.name) && local[i].size == f.size {
            return true;
        }
        i += 1;
    }
    false
}

fn fetch_area(local: &Vec<LocalFile>, remote: &Vec<RemoteFile>, area: Area) -> (r: Vec<SyncStep>)
    ensures
        step_views(r@) == fetch_steps(local_views(local@), remote_views(remote@), area),
{
    let ghost ls = local_views(local@);
    let ghost rs = remote_views(remote@);
    let ghost get = |f: FileView| fetch_step(f, ls, area);
    let ghost mine = |f: FileView| is_ours(area, f.name);
    let mut out: Vec<SyncStep> = Vec::new();
    let mut j: usize = 0;
    proof {
        filter_none(rs, mine);
        assert(step_views(out@) =~= rs.take(0).filter(mine).map_values(get));
    }
    while j < remote.len()
        invariant
            j <= remote@.len(),
            ls == local_views(local@),
            rs == remote_views(remote@),
            get == |f: FileView| fetch_step(f, ls, area),
            mine == |f: FileView| is_ours(area, f.name),
            step_views(out@) == rs.take(j as int).filter(mine).map_values(get),
        decreases remote@.len() - j,
    {
        assert(rs[j as int] == remote@[j as int]@);
        proof {
            filter_step(rs, j as int, mine);
        }
        if ours(area, &remote[j].name) {
            let act = if remote[j].size > 0 && local_holds(local, &remote[j]) {
                Act::Skip
            } else {
                Act::Download
            };
            let step = SyncStep {
                act,
                area,
                name: remote[j].name.as_str().to_owned(),
                path: String::new(),
                size: remote[j].size,
            };
            assert(step@.path =~= Seq::<char>::empty());
            let ghost was = out@;
            let ghost before = rs.take(j as int).filter(mine);
            out.push(step);
            proof {
                assert(step_views(out@) =~= step_views(was).push(step@));
                assert(before.push(rs[j as int]).map_values(get) =~= before.map_values(get).push(
                    step@,
                ));
            }
        }
        j += 1;
    }
    assert(rs.take(remote@.len() as int) =~= rs);
    out
}

/// Whether the server holds a book of this name.
pub fn remote_has_book(remote: &Vec<RemoteFile>, name: &str) -> (r: bool)
    ensures
        r == has_remote(remote_ours(remote_views(remote@), Area::Epub), name@),
{
    let ghost rs = remote_views(remote@);
    let ghost mine = |f: FileView| is_ours(Area::Epub, f.name);
    let mut j: usize = 0;
    proof {
        filter_none(rs, mine);
    }
    while j < remote.len()
        invariant
            j <= remote@.len(),
            rs == remote_views(remote@),
            mine == |f: FileView| is_ours(Area::Epub, f.name),
            !has_remote(rs.take(j as int).filter(mine), name@),
        decreases remote@.len() - j,
    {
        assert(rs[j as int] == remote@[j as int]@);
        let ghost before = rs.take(j as int).filter(mine);
        proof {
            filter_step(rs, j as int, mine);
        }
        if same(&remote[j].name, name) && ours(Area::Epub, &remote[j].name) {
            proof {
                let now = rs.take(j + 1).filter(mine);
                assert(now[now.len() - 1].name == name@);
                filter_of_prefix(rs, j + 1, mine);
                assert(rs.filter(mine)[now.len() - 1] == now[now.len() - 1]);
            }
            return true;
        }
        assert(!has_remote(rs.take(j + 1).filter(mine), name@)) by {
            let now = rs.take(j + 1).filter(mine);
            assert forall|k: int| 0 <= k < now.len() implies (#[trigger] now[k]).name != name@ by {
                if k < before.len() {
                    assert(before[k].name != name@);
                }
            }
        }
        j += 1;
    }
    assert(rs.take(remote@.len() as int) =~= rs);
    false
}

proof fn filter_of_prefix<A>(s: Seq<A>, k: int, f: spec_fn(A) -> bool)
    requires
        0 <= k <= s.len(),
    ensures
        s.take(k).filter(f).len() <= s.filter(f).len(),
        forall|i: int| 0 <= i < s.take(k).filter(f).len() ==> s.take(k).filter(f)[i] == s.filter(f)[i],
    decreases s.len() - k,
{
    if k == s.len() {
        assert(s.take(k) =~= s);
    } else {
        filter_of_prefix(s, k + 1, f);
        filter_step(s, k, f);
    }
}

fn discard_area(local: &Vec<LocalFile>, remote: &Vec<RemoteFile>) -> (r: Vec<SyncStep>)
    ensures
        step_views(r@) == discard_steps(local_views(local@), remote_views(remote@)),
{
    let ghost ls = local_views(local@);
    let ghost rs = remote_views(remote@);
    let ghost gone = |f: LocalView| !has_remote(remote_ours(rs, Area::Epub), f.name);
    let ghost drop = |f: LocalView| discard_step(f, Area::Epub);
    let mut out: Vec<SyncStep> = Vec::new();
    let mut i: usize = 0;
    proof {
        filter_none(ls, gone);
        assert(step_views(out@) =~= ls.take(0).filter(gone).map_values(drop));
    }
    while i < local.len()
        invariant
            i <= local@.len(),
            ls == local_views(local@),
            rs == remote_views(remote@),
            gone == |f: LocalView| !has_remote(remote_ours(rs, Area::Epub), f.name),
            drop == |f: LocalView| discard_step(f, Area::Epub),
            step_views(out@) == ls.take(i as int).filter(gone).map_values(drop),
        decreases local@.len() - i,
    {
        assert(ls[i as int] == local@[i as int]@);
        proof {
            filter_step(ls, i as int, gone);
        }
        if !remote_has_book(remote, &local[i].name) {
            let step = SyncStep {
                act: Act::DeleteLocal,
                area: Area::Epub,
                name: local[i].name.as_str().to_owned(),
                path: local[i].path.as_str().to_owned(),
                size: local[i].size,
            };
            let ghost was = out@;
            let ghost before = ls.take(i as int).filter(gone);
            out.push(step);
            proof {
                assert(step_views(out@) =~= step_views(was).push(step@));
                assert(before.push(ls[i as int]).map_values(drop) =~= before.map_values(drop).push(
                    step@,
                ));
            }
        }
        i += 1;
    }
    assert(ls.take(local@.len() as int) =~= ls);
    out
}

fn append_steps(out: &mut Vec<SyncStep>, more: Vec<SyncStep>)
    ensures
        step_views(final(out)@) == step_views(old(out)@) + step_views(more@),
{
    let ghost a = out@;
    let ghost b = more@;
    let mut more = more;
    out.append(&mut more);
    assert(step_views(a + b) =~= step_views(a) + step_views(b));
}

/// The steps of a push: the books, then the covers.
pub fn plan_push(
    local: &Vec<LocalFile>,
    remote: &Vec<RemoteFile>,
    covers: &Vec<LocalFile>,
    remote_covers: &Vec<RemoteFile>,
) -> (r: Vec<SyncStep>)
    ensures
        step_views(r@) == push_steps(local_views(local@), remote_views(remote@), Area::Epub)
            + push_steps(local_views(covers@), remote_views(remote_covers@), Area::Cover),
{
    let mut steps = push_area(local, remote, Area::Epub);
    append_steps(&mut steps, push_area(covers, remote_covers, Area::Cover));
    steps
}

/// The steps of a pull: the covers, then the books, then the books that are to go.
pub fn plan_pull(
    local: &Vec<LocalFile>,
    remote: &Vec<RemoteFile>,
    covers: &Vec<LocalFile>,
    remote_covers: &Vec<RemoteFile>,
) -> (r: Vec<SyncStep>)
    ensures
        step_views(r@) == fetch_steps(
            local_views(covers@),
            remote_views(remote_covers@),
            Area::Cover,
        ) + fetch_steps(local_views(local@), remote_views(remote@), Area::Epub) + discard_steps(
            local_views(local@),
            remote_views(remote@),
        ),
{
    let mut steps = fetch_area(covers, remote_covers, Area::Cover);
    append_steps(&mut steps, fetch_area(local, remote, Area::Epub));
    append_steps(&mut steps, discard_area(local, remote));
    steps
}

/// Whether there is anything to pull.
pub fn pull_possible(remote: &Vec<RemoteFile>) -> (r: Result<(), String>)
    ensures
        match r {
            Ok(_) => remote@.len() > 0,
            Err(e) => remote@.len() == 0 && e@
                == "云端书库目录为空（请先在其他设备执行「同步到云端」，或检查书库名/远程目录是否一致）"@,
        },
{
    if remote.len() == 0 {
        Err(
            "云端书库目录为空（请先在其他设备执行「同步到云端」，或检查书库名/远程目录是否一致）".to_owned(),
        )
    } else {
        Ok(())
    }
}

/// The names of the books on the server.
pub open spec fn book_names(remote: Seq<FileView>) -> Seq<Seq<char>> {
    remote_ours(remote, Area::Epub).map_values(|f: FileView| f.name)
}

/// The names of the books on the server.
pub fn remote_books(remote: &Vec<RemoteFile>) -> (r: Vec<String>)
    ensures
        strs(r@) == book_names(remote_views(remote@)),
{
    let ghost rs = remote_views(remote@);
    let ghost mine = |f: FileView| is_ours(Area::Epub, f.name);
    let ghost get = |f: FileView| f.name;
    let mut out: Vec<String> = Vec::new();
    let mut j: usize = 0;
    proof {
        filter_none(rs, mine);
        assert(strs(out@) =~= rs.take(0).filter(mine).map_values(get));
    }
    while j < remote.len()
        invariant
            j <= remote@.len(),
            rs == remote_views(remote@),
            mine == |f: FileView| is_ours(Area::Epub, f.name),
            get == |f: FileView| f.name,
            strs(out@) == rs.take(j as int).filter(mine).map_values(get),
        decreases remote@.len() - j,
    {
        assert(rs[j as int] == remote@[j as int]@);
        let ghost before = rs.take(j as int).filter(mine);
        proof {
            filter_step(rs, j as int, mine);
        }
        if ours(Area::Epub, &remote[j].name) {
            let name = remote[j].name.as_str().to_owned();
            proof {
                strs_push(out@, name);
                assert(before.push(rs[j as int]).map_values(get) =~= before.map_values(get).push(
                    name@,
                ));
            }
            out.push(name);
        }
        j += 1;
    }
    assert(rs.take(remote@.len() as int) =~= rs);
    out
}

// ---- taking the steps ----

/// How a step went.
#[derive(Debug)]
pub enum StepOutcome {
    Done,
    /// The file of the library could not be read.
    Unreadable(String),
    /// The server, or the writing or removal of a file, failed.
    Failed(String),
}

/// How far a synchronisation is.
#[derive(Debug)]
pub struct SyncProgress {
    /// `webdav-push` or `webdav-pull`.
    pub phase: String,
    pub current: i64,
    pub total: i64,
    pub message: String,
}

/// What a synchronisation did.
#[derive(Debug)]
pub struct SyncReport {
    /// How many books there are: in the library for a push, on the server for a pull.
    pub total: usize,
    pub uploaded: usize,
    pub downloaded: usize,
    pub deleted: usize,
    /// Books that both sides hold.
    pub skipped: usize,
    pub failed: usize,
    pub books_imported: usize,
    pub books_updated: usize,
    pub books_deleted: usize,
    pub errors: Vec<String>,
}

/// Which way files go.
#[derive(Debug, Clone, Copy, PartialEq, Eq, Structural)]
pub enum Direction {
    Push,
    Pull,
}

/// A synchronisation as it goes on.
#[derive(Debug)]
pub struct SyncRun {
    pub direction: Direction,
    pub steps: Vec<SyncStep>,
    /// How many steps are taken.
    pub done: usize,
    pub total: i64,
    pub report: SyncReport,
}

/// What a step is reported as.
pub open spec fn step_text(act: Act, area: Area, name: Seq<char>, outcome: StepOutcome) -> Seq<
    char,
> {
    let what = match (act, outcome, area) {
        (Act::Skip, _, Area::Epub) => "跳过（已一致）"@,
        (Act::Skip, _, Area::Cover) => "跳过（已一致）封面 "@,
        (_, StepOutcome::Unreadable(_), Area::Epub) => "读取失败 "@,
        (_, StepOutcome::Unreadable(_), Area::Cover) => "读取失败封面 "@,
        (Act::Upload, StepOutcome::Done, Area::Epub) => "上传 "@,
        (Act::Upload, StepOutcome::Done, Area::Cover) => "上传封面 "@,
        (Act::Upload, StepOutcome::Failed(_), Area::Epub) => "上传失败 "@,
        (Act::Upload, StepOutcome::Failed(_), Area::Cover) => "上传失败封面 "@,
        (Act::Download, StepOutcome::Done, Area::Epub) => "下载 "@,
        (Act::Download, StepOutcome::Done, Area::Cover) => "下载封面 "@,
        (Act::Download, StepOutcome::Failed(_), Area::Epub) => "下载失败 "@,
        (Act::Download, StepOutcome::Failed(_), Area::Cover) => "下载失败封面 "@,
        (Act::DeleteRemote, StepOutcome::Done, Area::Epub) => "删除云端多余 "@,
        (Act::DeleteRemote, StepOutcome::Done, Area::Cover) => "删除云端多余封面 "@,
        (Act::DeleteLocal, StepOutcome::Done, _) => "删除本地多余 "@,
        (Act::DeleteRemote, StepOutcome::Failed(_), Area::Cover) => "删除失败封面 "@,
        (_, StepOutcome::Failed(_), _) => "删除失败 "@,
    };
    what + name
}

fn step_message(act: Act, area: Area, name: &str, outcome: &StepOutcome) -> (r: String)
    ensures
        r@ == step_text(act, area, name@, *outcome),
{
    let what = match (act, outcome, area) {
        (Act::Skip, _, Area::Epub) => "跳过（已一致）",
        (Act::Skip, _, Area::Cover) => "跳过（已一致）封面 ",
        (_, StepOutcome::Unreadable(_), Area::Epub) => "读取失败 ",
        (_, StepOutcome::Unreadable(_), Area::Cover) => "读取失败封面 ",
        (Act::Upload, StepOutcome::Done, Area::Epub) => "上传 ",
        (Act::Upload, StepOutcome::Done, Area::Cover) => "上传封面 ",
        (Act::Upload, StepOutcome::Failed(_), Area::Epub) => "上传失败 ",
        (Act::Upload, StepOutcome::Failed(_), Area::Cover) => "上传失败封面 ",
        (Act::Download, StepOutcome::Done, Area::Epub) => "下载 ",
        (Act::Download, StepOutcome::Done, Area::Cover) => "下载封面 ",
        (Act::Download, StepOutcome::Failed(_), Area::Epub) => "下载失败 ",
        (Act::Download, StepOutcome::Failed(_), Area::Cover) => "下载失败封面 ",
        (Act::DeleteRemote, StepOutcome::Done, Area::Epub) => "删除云端多余 ",
        (Act::DeleteRemote, StepOutcome::Done, Area::Cover) => "删除云端多余封面 ",
        (Act::DeleteLocal, StepOutcome::Done, _) => "删除本地多余 ",
        (Act::DeleteRemote, StepOutcome::Failed(_), Area::Cover) => "删除失败封面 ",
        (_, StepOutcome::Failed(_), _) => "删除失败 ",
    };
    what.to_owned().concat(name)
}

/// Where a file stands, for a list of errors.
pub open spec fn place_text(area: Area, name: Seq<char>) -> Seq<char> {
    match area {
        Area::Epub => name,
        Area::Cover => "covers/"@ + name,
    }
}

/// What a failure is listed as.
pub open spec fn error_text(act: Act, area: Area, name: Seq<char>, outcome: StepOutcome) -> Option<
    Seq<char>,
> {
    if act == Act::Skip {
        None
    } else {
        match outcome {
            StepOutcome::Done => None,
            StepOutcome::Unreadable(e) => Some(place_text(area, name) + ": 读取失败 "@ + e@),
            StepOutcome::Failed(e) => Some(
                match act {
                    Act::Upload => place_text(area, name) + ": 上传失败 "@ + e@,
                    Act::Download => place_text(area, name) + ": 下载失败 "@ + e@,
                    Act::DeleteLocal => place_text(area, name) + ": 本地删除失败 "@ + e@
                        + "（文件可能正被阅读器占用）"@,
                    _ => place_text(area, name) + ": 远端删除失败 "@ + e@,
                },
            ),
        }
    }
}

fn step_error(act: Act, area: Area, name: &str, outcome: &StepOutcome) -> (r: Option<String>)
    ensures
        opt_str(r) == error_text(act, area, name@, *outcome),
{
    if act == Act::Skip {
        return None;
    }
    let place = match area {
        Area::Epub => name.to_owned(),
        Area::Cover => "covers/".to_owned().concat(name),
    };
    match outcome {
        StepOutcome::Done => None,
        StepOutcome::Unreadable(e) => Some(place.concat(": 读取失败 ").concat(e)),
        StepOutcome::Failed(e) => Some(
            match act {
                Act::Upload => place.concat(": 上传失败 ").concat(e),
                Act::Download => place.concat(": 下载失败 ").concat(e),
                Act::DeleteLocal => place.concat(": 本地删除失败 ").concat(e).concat(
                    "（文件可能正被阅读器占用）",
                ),
                _ => place.concat(": 远端删除失败 ").concat(e),
            },
        ),
    }
}

impl SyncReport {
    /// How many steps it counts.
    pub open spec fn counted(self) -> int {
        self.uploaded + self.downloaded + self.deleted + self.skipped + self.failed
    }

    /// Whether nothing is counted yet.
    pub open spec fn is_new(self, total: usize) -> bool {
        &&& self.total == total
        &&& self.counted() == 0
        &&& self.books_imported == 0
        &&& self.books_updated == 0
        &&& self.books_deleted == 0
        &&& self.errors@.len() == 0
    }

    /// Whether this is `before` with one more step counted.
    pub open spec fn counts(
        self,
        before: SyncReport,
        act: Act,
        area: Area,
        name: Seq<char>,
        outcome: StepOutcome,
    ) -> bool {
        let error = error_text(act, area, name, outcome);
        let ok = error is None;
        &&& self.total == before.total
        &&& self.uploaded == before.uploaded + (if ok && act == Act::Upload {
            1int
        } else {
            0
        })
        &&& self.downloaded == before.downloaded + (if ok && act == Act::Download {
            1int
        } else {
            0
        })
        &&& self.deleted == before.deleted + (if ok && (act == Act::DeleteLocal || act
            == Act::DeleteRemote) {
            1int
        } else {
            0
        })
        &&& self.skipped == before.skipped + (if act == Act::Skip && area == Area::Epub {
            1int
        } else {
            0
        })
        &&& self.failed == before.failed + (if ok {
            0int
        } else {
            1
        })
        &&& self.books_imported == before.books_imported
        &&& self.books_updated == before.books_updated
        &&& self.books_deleted == before.books_deleted
        &&& strs(self.errors@) == (match error {
            Some(e) => strs(before.errors@).push(e),
            None => strs(before.errors@),
        })
    }
}

fn new_report(total: usize) -> (r: SyncReport)
    ensures
        r.is_new(total),
{
    SyncReport {
        total,
        uploaded: 0,
        downloaded: 0,
        deleted: 0,
        skipped: 0,
        failed: 0,
        books_imported: 0,
        books_updated: 0,
        books_deleted: 0,
        errors: Vec::new(),
    }
}

impl SyncRun {
    /// Every step that was taken is counted at most once, and every failure is listed.
    pub open spec fn wf(self) -> bool {
        &&& self.done <= self.steps@.len()
        &&& self.steps@.len() < i64::MAX
        &&& self.steps@.len() < usize::MAX
        &&& self.report.counted() <= self.done
        &&& self.report.errors@.len() == self.report.failed
    }

    /// A synchronisation before its first step; `total` is what is to be counted for the
    /// user.
    pub fn start(direction: Direction, steps: Vec<SyncStep>, books: usize, total: i64) -> (r:
        SyncRun)
        requires
            steps@.len() < i64::MAX,
            steps@.len() < usize::MAX,
        ensures
            r.wf(),
            r.direction == direction,
            r.steps == steps,
            r.done == 0,
            r.total == total,
            r.report.is_new(books),
    {
        SyncRun { direction, steps, done: 0, total, report: new_report(books) }
    }

    /// The next step to take; none where all are taken, and an error where it is to stop.
    pub fn next(&self, cancel: &SyncCancel) -> (r: Result<Option<usize>, String>)
        requires
            self.wf(),
        ensures
            match r {
                Ok(Some(i)) => !cancel.cancelled && i == self.done && i < self.steps@.len(),
                Ok(None) => !cancel.cancelled && self.done == self.steps@.len(),
                Err(e) => cancel.cancelled && e@ == "已取消"@,
            },
    {
        match cancel.check() {
            Err(e) => Err(e),
            Ok(_) => if self.done < self.steps.len() {
                Ok(Some(self.done))
            } else {
                Ok(None)
            },
        }
    }

    /// The word for the direction.
    pub open spec fn phase_text(self) -> Seq<char> {
        match self.direction {
            Direction::Push => "webdav-push"@,
            Direction::Pull => "webdav-pull"@,
        }
    }

    fn phase(&self) -> (r: String)
        ensures
            r@ == self.phase_text(),
    {
        match self.direction {
            Direction::Push => "webdav-push".to_owned(),
            Direction::Pull => "webdav-pull".to_owned(),
        }
    }

    /// Counts the step that was taken, and says how far the synchronisation is.
    pub fn record(&mut self, outcome: StepOutcome) -> (r: SyncProgress)
        requires
            old(self).wf(),
            old(self).done < old(self).steps@.len(),
        ensures
            final(self).wf(),
            final(self).direction == old(self).direction,
            final(self).steps == old(self).steps,
            final(self).total == old(self).total,
            final(self).done == old(self).done + 1,
            ({
                let s = old(self).steps@[old(self).done as int];
                &&& final(self).report.counts(
                    old(self).report,
                    s.act,
                    s.area,
                    s.name@,
                    outcome,
                )
                &&& r.message@ == step_text(s.act, s.area, s.name@, outcome)
            }),
            r.phase@ == old(self).phase_text(),
            r.current == old(self).done + 1,
            r.total == old(self).total,
    {
        let i: usize = self.done;
        let act = self.steps[i].act;
        let area = self.steps[i].area;
        let message = step_message(act, area, &self.steps[i].name, &outcome);
        let error = step_error(act, area, &self.steps[i].name, &outcome);
        match error {
            Some(e) => {
                self.report.failed = self.report.failed + 1;
                proof {
                    strs_push(self.report.errors@, e);
                }
                self.report.errors.push(e);
            },
            None => match act {
                Act::Upload => {
                    self.report.uploaded = self.report.uploaded + 1;
                },
                Act::Download => {
                    self.report.downloaded = self.report.downloaded + 1;
                },
                Act::Skip => {
                    if area == Area::Epub {
                        self.report.skipped = self.report.skipped + 1;
                    }
                },
                Act::DeleteRemote => {
                    self.report.deleted = self.report.deleted + 1;
                },
                Act::DeleteLocal => {
                    self.report.deleted = self.report.deleted + 1;
                },
            },
        }
        self.done = i + 1;
        SyncProgress {
            phase: self.phase(),
            current: self.done as i64,
            total: self.total,
            message,
        }
    }

    /// How far the synchronisation is when it comes to the database.
    pub fn database_progress(&self) -> (r: SyncProgress)
        requires
            self.wf(),
        ensures
            r.phase@ == self.phase_text(),
            r.current == self.done + 1,
            r.total == self.total,
            r.message@ == (match self.direction {
                Direction::Push => "上传数据库快照…"@,
                Direction::Pull => "应用云端数据库…"@,
            }),
    {
        let message = match self.direction {
            Direction::Push => "上传数据库快照…".to_owned(),
            Direction::Pull => "应用云端数据库…".to_owned(),
        };
        SyncProgress { phase: self.phase(), current: self.done as i64 + 1, total: self.total, message }
    }

    /// Counts the upload of the database, the last step of a push.
    pub fn finish_push(&mut self, outcome: Result<(), String>)
        requires
            old(self).wf(),
        ensures
            final(self).direction == old(self).direction,
            final(self).steps == old(self).steps,
            final(self).done == old(self).done,
            final(self).total == old(self).total,
            final(self).report.total == old(self).report.total,
            final(self).report.downloaded == old(self).report.downloaded,
            final(self).report.deleted == old(self).report.deleted,
            final(self).report.skipped == old(self).report.skipped,
            final(self).report.books_imported == old(self).report.books_imported,
            final(self).report.books_updated == old(self).report.books_updated,
            final(self).report.books_deleted == old(self).report.books_deleted,
            match outcome {
                Ok(_) => final(self).report.uploaded == old(self).report.uploaded + 1
                    && final(self).report.failed == old(self).report.failed
                    && final(self).report.errors == old(self).report.errors,
                Err(e) => final(self).report.uploaded == old(self).report.uploaded
                    && final(self).report.failed == old(self).report.failed + 1
                    && strs(final(self).report.errors@) == strs(
                    old(self).report.errors@,
                ).push("mystery_novel.db: 上传失败 "@ + e@),
            },
    {
        match outcome {
            Ok(_) => {
                self.report.uploaded = self.report.uploaded + 1;
            },
            Err(e) => {
                self.report.failed = self.report.failed + 1;
                let text = "mystery_novel.db: 上传失败 ".to_owned().concat(&e);
                proof {
                    strs_push(self.report.errors@, text);
                }
                self.report.errors.push(text);
            },
        }
    }

    /// Counts what became of the server's database, the last step of a pull. Answers whether
    /// the library's records now are the server's; where they are not, the books are to be
    /// recorded one by one.
    pub fn finish_pull(&mut self, outcome: DbOutcome) -> (r: bool)
        ensures
            final(self).direction == old(self).direction,
            final(self).steps == old(self).steps,
            final(self).done == old(self).done,
            final(self).total == old(self).total,
            final(self).report.total == old(self).report.total,
            final(self).report.uploaded == old(self).report.uploaded,
            final(self).report.downloaded == old(self).report.downloaded,
            final(self).report.deleted == old(self).report.deleted,
            final(self).report.skipped == old(self).report.skipped,
            final(self).report.failed == old(self).report.failed,
            r == (outcome is Replaced),
            strs(final(self).report.errors@) == (match outcome.text() {
                Some(e) => strs(old(self).report.errors@).push(e),
                None => strs(old(self).report.errors@),
            }),
            match outcome {
                DbOutcome::Replaced(s) => final(self).report.books_imported == s.inserted
                    && final(self).report.books_updated == s.updated
                    && final(self).report.books_deleted == s.deleted,
                _ => final(self).report.books_imported == old(self).report.books_imported
                    && final(self).report.books_updated == old(self).report.books_updated
                    && final(self).report.books_deleted == old(self).report.books_deleted,
            },
    {
        match outcome.error() {
            Some(e) => {
                proof {
                    strs_push(self.report.errors@, e);
                }
                self.report.errors.push(e);
            },
            None => {},
        }
        match outcome {
            DbOutcome::Replaced(s) => {
                self.report.books_imported = s.inserted;
                self.report.books_updated = s.updated;
                self.report.books_deleted = s.deleted;
                true
            },
            _ => false,
        }
    }
}

/// What became of the server's database.
#[derive(Debug)]
pub enum DbOutcome {
    /// The server has none.
    Absent,
    DownloadFailed(String),
    /// It could not be kept.
    WriteFailed,
    /// It could not be taken over.
    ReplaceFailed(String),
    Replaced(ReplaceStats),
}

impl DbOutcome {
    /// What it is listed as.
    pub open spec fn text(self) -> Option<Seq<char>> {
        match self {
            DbOutcome::DownloadFailed(e) => Some("mystery_novel.db: 下载失败 "@ + e@),
            DbOutcome::WriteFailed => Some("云端数据库缓存写入失败"@),
            DbOutcome::ReplaceFailed(e) => Some("mystery_novel.db: 云端数据覆盖失败: "@ + e@),
            _ => None,
        }
    }

    fn error(&self) -> (r: Option<String>)
        ensures
            opt_str(r) == self.text(),
    {
        match self {
            DbOutcome::DownloadFailed(e) => Some(
                "mystery_novel.db: 下载失败 ".to_owned().concat(e),
            ),
            DbOutcome::WriteFailed => Some("云端数据库缓存写入失败".to_owned()),
            DbOutcome::ReplaceFailed(e) => Some(
                "mystery_novel.db: 云端数据覆盖失败: ".to_owned().concat(e),
            ),
            _ => None,
        }
    }
}

// ---- laws ----

/// The files of one side, by name.
pub open spec fn holding(files: Seq<FileView>) -> Map<Seq<char>, nat>
    decreases files.len(),
{
    if files.len() == 0 {
        Map::empty()
    } else {
        holding(files.drop_last()).insert(files.last().name, files.last().size)
    }
}

/// What the server holds once a step is taken.
pub open spec fn served_after(held: Map<Seq<char>, nat>, step: StepView) -> Map<Seq<char>, nat> {
    match step.act {
        Act::Upload => held.insert(step.name, step.size),
        Act::DeleteRemote => held.remove(step.name),
        _ => held,
    }
}

/// What the server holds once the steps are taken.
pub open spec fn served_after_all(held: Map<Seq<char>, nat>, steps: Seq<StepView>) -> Map<
    Seq<char>,
    nat,
>
    decreases steps.len(),
{
    if steps.len() == 0 {
        held
    } else {
        served_after(served_after_all(held, steps.drop_last()), steps.last())
    }
}

/// Whether no two files of the library have one name.
pub open spec fn distinct_locals(files: Seq<LocalView>) -> bool {
    forall|i: int, j: int|
        0 <= i < j < files.len() ==> (#[trigger] files[i]).name != (#[trigger] files[j]).name
}

proof fn holding_has(files: Seq<FileView>, name: Seq<char>)
    ensures
        holding(files).contains_key(name) <==> file_at(files, name) is Some,
        file_at(files, name) matches Some(i) ==> 0 <= i < files.len() && holding(files)[name]
            == files[i].size && files[i].name == name,
    decreases files.len(),
{
    if files.len() > 0 {
        holding_has(files.drop_last(), name);
    }
}

proof fn uploads_arrive(local: Seq<LocalView>, remote: Seq<FileView>, area: Area)
    requires
        distinct_locals(local),
    ensures
        ({
            let steps = local.map_values(|f: LocalView| upload_step(f, remote, area));
            let held = served_after_all(holding(remote), steps);
            &&& forall|i: int|
                0 <= i < local.len() ==> held.contains_key((#[trigger] local[i]).name)
                    && held[local[i].name] == local[i].size
            &&& forall|n: Seq<char>|
                !has_local(local, n) ==> (held.contains_key(n) <==> holding(remote).contains_key(
                    n,
                )) && (held.contains_key(n) ==> held[n] == holding(remote)[n])
        }),
    decreases local.len(),
{
    let up = |f: LocalView| upload_step(f, remote, area);
    let steps = local.map_values(up);
    if local.len() > 0 {
        let init = local.drop_last();
        let k = local.len() - 1;
        let f = local[k];
        assert(distinct_locals(init)) by {
            assert forall|i: int, j: int| 0 <= i < j < init.len() implies (#[trigger] init[i]).name
                != (#[trigger] init[j]).name by {
                assert(local[i].name != local[j].name);
            }
        }
        uploads_arrive(init, remote, area);
        assert(steps.drop_last() =~= init.map_values(up));
        let before = served_after_all(holding(remote), init.map_values(up));
        let held = served_after_all(holding(remote), steps);
        assert(!has_local(init, f.name)) by {
            assert forall|i: int| 0 <= i < init.len() implies (#[trigger] init[i]).name
                != f.name by {
                assert(local[i].name != local[k].name);
            }
        }
        holding_has(remote, f.name);
        assert forall|i: int| 0 <= i < local.len() implies held.contains_key(
            (#[trigger] local[i]).name,
        ) && held[local[i].name] == local[i].size by {
            if i < k {
                assert(init[i] == local[i]);
                assert(local[i].name != local[k].name);
            }
        }
        assert forall|n: Seq<char>| !has_local(local, n) implies (held.contains_key(n)
            <==> holding(remote).contains_key(n)) && (held.contains_key(n) ==> held[n]
            == holding(remote)[n]) by {
            assert(local[k].name != n);
            assert forall|i: int| 0 <= i < init.len() implies (#[trigger] init[i]).name != n by {
                assert(local[i].name != n);
            }
            assert(!has_local(init, n));
        }
    }
}

proof fn removals_go(
    held: Map<Seq<char>, nat>,
    head: Seq<StepView>,
    files: Seq<FileView>,
    area: Area,
    n: Seq<char>,
)
    ensures
        ({
            let steps = files.map_values(|f: FileView| remove_step(f, area));
            let before = served_after_all(held, head);
            let after = served_after_all(held, head + steps);
            &&& after.contains_key(n) <==> before.contains_key(n) && !has_remote(files, n)
            &&& after.contains_key(n) ==> after[n] == before[n]
        }),
    decreases files.len(),
{
    let rm = |f: FileView| remove_step(f, area);
    let steps = files.map_values(rm);
    if files.len() == 0 {
        assert(head + steps =~= head);
    } else {
        let init = files.drop_last();
        removals_go(held, head, init, area, n);
        assert((head + steps).drop_last() =~= head + init.map_values(rm));
        assert((head + steps).last() == rm(files.last()));
        if has_remote(files, n) {
            let i = choose|i: int| 0 <= i < files.len() && (#[trigger] files[i]).name == n;
            if i < init.len() {
                assert(init[i].name == n);
            }
        }
        if has_remote(init, n) {
            let i = choose|i: int| 0 <= i < init.len() && (#[trigger] init[i]).name == n;
            assert(files[i].name == n);
        }
        if files.last().name == n {
            assert(files[files.len() - 1].name == n);
        }
    }
}

proof fn left_over_has(local: Seq<LocalView>, remote: Seq<FileView>, area: Area, n: Seq<char>)
    ensures
        has_remote(left_over(local, remote, area), n) <==> has_remote(remote, n) && is_ours(
            area,
            n,
        ) && !has_local(local, n),
{
    let keep = |f: FileView| is_ours(area, f.name) && !has_local(local, f.name);
    let rest = remote.filter(keep);
    filter_from(remote, keep);
    if has_remote(rest, n) {
        let i = choose|i: int| 0 <= i < rest.len() && (#[trigger] rest[i]).name == n;
        assert(remote.contains(rest[i]));
        let k = choose|k: int| 0 <= k < remote.len() && remote[k] == rest[i];
        assert(remote[k].name == n);
    }
    if has_remote(remote, n) && is_ours(area, n) && !has_local(local, n) {
        let k = choose|k: int| 0 <= k < remote.len() && (#[trigger] remote[k]).name == n;
        filter_step(remote, k, keep);
        let now = remote.take(k + 1).filter(keep);
        filter_of_prefix(remote, k + 1, keep);
        assert(now[now.len() - 1] == remote[k]);
        assert(rest[now.len() - 1].name == n);
    }
}

proof fn file_at_iff(files: Seq<FileView>, n: Seq<char>)
    ensures
        file_at(files, n) is Some <==> has_remote(files, n),
    decreases files.len(),
{
    if files.len() > 0 {
        let init = files.drop_last();
        file_at_iff(init, n);
        if has_remote(files, n) && files.last().name != n {
            let i = choose|i: int| 0 <= i < files.len() && (#[trigger] files[i]).name == n;
            assert(init[i].name == n);
        }
        if has_remote(init, n) {
            let i = choose|i: int| 0 <= i < init.len() && (#[trigger] init[i]).name == n;
            assert(files[i].name == n);
        }
        if files.last().name == n {
            assert(files[files.len() - 1].name == n);
        }
    }
}

/// Once every step of a push is taken, the server holds each file of the library in its
/// size, and of the files that a synchronisation is about none that the library does not
/// have. The others stay as they were.
pub proof fn push_mirrors(
    local: Seq<LocalView>,
    remote: Seq<FileView>,
    area: Area,
    n: Seq<char>,
)
    requires
        distinct_locals(local),
    ensures
        ({
            let held = served_after_all(holding(remote), push_steps(local, remote, area));
            &&& forall|i: int|
                0 <= i < local.len() ==> held.contains_key((#[trigger] local[i]).name)
                    && held[local[i].name] == local[i].size
            &&& is_ours(area, n) && held.contains_key(n) ==> has_local(local, n)
            &&& !is_ours(area, n) && !has_local(local, n) ==> (held.contains_key(n)
                <==> has_remote(remote, n))
        }),
{
    let up = |f: LocalView| upload_step(f, remote, area);
    let head = local.map_values(up);
    uploads_arrive(local, remote, area);
    let rest = left_over(local, remote, area);
    let before = served_after_all(holding(remote), head);
    let held = served_after_all(holding(remote), push_steps(local, remote, area));
    assert forall|i: int| 0 <= i < local.len() implies held.contains_key(
        (#[trigger] local[i]).name,
    ) && held[local[i].name] == local[i].size by {
        removals_go(holding(remote), head, rest, area, local[i].name);
        left_over_has(local, remote, area, local[i].name);
        assert(before.contains_key(local[i].name));
    }
    removals_go(holding(remote), head, rest, area, n);
    left_over_has(local, remote, area, n);
    holding_has(remote, n);
    file_at_iff(remote, n);
}

/// What the library holds once a step is taken.
pub open spec fn kept_after(held: Map<Seq<char>, nat>, step: StepView) -> Map<Seq<char>, nat> {
    match step.act {
        Act::Download => held.insert(step.name, step.size),
        Act::DeleteLocal => held.remove(step.name),
        _ => held,
    }
}

/// What the library holds once the steps are taken.
pub open spec fn kept_after_all(held: Map<Seq<char>, nat>, steps: Seq<StepView>) -> Map<
    Seq<char>,
    nat,
>
    decreases steps.len(),
{
    if steps.len() == 0 {
        held
    } else {
        kept_after(kept_after_all(held, steps.drop_last()), steps.last())
    }
}

/// The files of the library, by name.
pub open spec fn keeping(files: Seq<LocalView>) -> Map<Seq<char>, nat>
    decreases files.len(),
{
    if files.len() == 0 {
        Map::empty()
    } else {
        keeping(files.drop_last()).insert(files.last().name, files.last().size)
    }
}

proof fn keeping_has(files: Seq<LocalView>, n: Seq<char>)
    requires
        distinct_locals(files),
    ensures
        keeping(files).contains_key(n) <==> has_local(files, n),
        forall|i: int|
            0 <= i < files.len() && (#[trigger] files[i]).name == n ==> keeping(files)[n]
                == files[i].size,
    decreases files.len(),
{
    if files.len() > 0 {
        let init = files.drop_last();
        let k = files.len() - 1;
        assert(distinct_locals(init)) by {
            assert forall|i: int, j: int| 0 <= i < j < init.len() implies (#[trigger] init[i]).name
                != (#[trigger] init[j]).name by {
                assert(files[i].name != files[j].name);
            }
        }
        keeping_has(init, n);
        if has_local(files, n) {
            let i = choose|i: int| 0 <= i < files.len() && (#[trigger] files[i]).name == n;
            if i < k {
                assert(init[i].name == n);
            }
        }
        if has_local(init, n) {
            let i = choose|i: int| 0 <= i < init.len() && (#[trigger] init[i]).name == n;
            assert(files[i].name == n);
        }
        if files.last().name == n {
            assert(files[k].name == n);
        }
        assert forall|i: int| 0 <= i < files.len() && (#[trigger] files[i]).name
            == n implies keeping(files)[n] == files[i].size by {
            if i < k {
                assert(init[i].name == n);
                assert(files[i].name != files[k].name);
            }
        }
    }
}

proof fn downloads_arrive(
    local: Seq<LocalView>,
    files: Seq<FileView>,
    area: Area,
)
    requires
        distinct_locals(local),
        distinct_names(files),
    ensures
        ({
            let steps = files.map_values(|f: FileView| fetch_step(f, local, area));
            let held = kept_after_all(keeping(local), steps);
            &&& forall|i: int|
                0 <= i < files.len() ==> held.contains_key((#[trigger] files[i]).name)
                    && held[files[i].name] == files[i].size
            &&& forall|n: Seq<char>|
                !has_remote(files, n) ==> (held.contains_key(n) <==> has_local(local, n))
        }),
    decreases files.len(),
{
    let get = |f: FileView| fetch_step(f, local, area);
    let steps = files.map_values(get);
    if files.len() == 0 {
        assert forall|n: Seq<char>| !has_remote(files, n) implies (keeping(local).contains_key(n)
            <==> has_local(local, n)) by {
            keeping_has(local, n);
        }
    } else {
        let init = files.drop_last();
        let k = files.len() - 1;
        let f = files[k];
        assert(distinct_names(init)) by {
            assert forall|i: int, j: int| 0 <= i < j < init.len() implies (#[trigger] init[i]).name
                != (#[trigger] init[j]).name by {
                assert(files[i].name != files[j].name);
            }
        }
        downloads_arrive(local, init, area);
        downloads_leave(local, init, area, f.name);
        keeping_has(local, f.name);
        assert(steps.drop_last() =~= init.map_values(get));
        let held = kept_after_all(keeping(local), steps);
        assert(!has_remote(init, f.name)) by {
            assert forall|i: int| 0 <= i < init.len() implies (#[trigger] init[i]).name
                != f.name by {
                assert(files[i].name != files[k].name);
            }
        }
        assert forall|i: int| 0 <= i < files.len() implies held.contains_key(
            (#[trigger] files[i]).name,
        ) && held[files[i].name] == files[i].size by {
            if i < k {
                assert(init[i] == files[i]);
                assert(files[i].name != files[k].name);
            }
        }
        assert forall|n: Seq<char>| !has_remote(files, n) implies (held.contains_key(n)
            <==> has_local(local, n)) by {
            assert(files[k].name != n);
            assert forall|i: int| 0 <= i < init.len() implies (#[trigger] init[i]).name != n by {
                assert(files[i].name != n);
            }
            assert(!has_remote(init, n));
        }
    }
}

proof fn downloads_leave(
    local: Seq<LocalView>,
    files: Seq<FileView>,
    area: Area,
    n: Seq<char>,
)
    ensures
        !has_remote(files, n) ==> ({
            let steps = files.map_values(|f: FileView| fetch_step(f, local, area));
            let held = kept_after_all(keeping(local), steps);
            &&& held.contains_key(n) == keeping(local).contains_key(n)
            &&& held.contains_key(n) ==> held[n] == keeping(local)[n]
        }),
    decreases files.len(),
{
    let get = |f: FileView| fetch_step(f, local, area);
    if files.len() > 0 && !has_remote(files, n) {
        let init = files.drop_last();
        assert forall|i: int| 0 <= i < init.len() implies (#[trigger] init[i]).name != n by {
            assert(files[i].name != n);
        }
        downloads_leave(local, init, area, n);
        assert(files.map_values(get).drop_last() =~= init.map_values(get));
        assert(files[files.len() - 1].name != n);
    }
}

proof fn discards_go(
    held: Map<Seq<char>, nat>,
    head: Seq<StepView>,
    files: Seq<LocalView>,
    n: Seq<char>,
)
    ensures
        ({
            let steps = files.map_values(|f: LocalView| discard_step(f, Area::Epub));
            let before = kept_after_all(held, head);
            let after = kept_after_all(held, head + steps);
            &&& after.contains_key(n) <==> before.contains_key(n) && !has_local(files, n)
            &&& after.contains_key(n) ==> after[n] == before[n]
        }),
    decreases files.len(),
{
    let rm = |f: LocalView| discard_step(f, Area::Epub);
    let steps = files.map_values(rm);
    if files.len() == 0 {
        assert(head + steps =~= head);
    } else {
        let init = files.drop_last();
        discards_go(held, head, init, n);
        assert((head + steps).drop_last() =~= head + init.map_values(rm));
        assert((head + steps).last() == rm(files.last()));
        if has_local(files, n) {
            let i = choose|i: int| 0 <= i < files.len() && (#[trigger] files[i]).name == n;
            if i < init.len() {
                assert(init[i].name == n);
            }
        }
        if has_local(init, n) {
            let i = choose|i: int| 0 <= i < init.len() && (#[trigger] init[i]).name == n;
            assert(files[i].name == n);
        }
        if files.last().name == n {
            assert(files[files.len() - 1].name == n);
        }
    }
}

/// Once the steps of a pull that are about books are taken, the library holds each book of
/// the server in its size, and no other book.
pub proof fn pull_mirrors(local: Seq<LocalView>, remote: Seq<FileView>, n: Seq<char>)
    requires
        distinct_locals(local),
        distinct_names(remote),
    ensures
        ({
            let books = remote_ours(remote, Area::Epub);
            let held = kept_after_all(
                keeping(local),
                fetch_steps(local, remote, Area::Epub) + discard_steps(local, remote),
            );
            &&& forall|i: int|
                0 <= i < books.len() ==> held.contains_key((#[trigger] books[i]).name)
                    && held[books[i].name] == books[i].size
            &&& held.contains_key(n) ==> has_remote(books, n)
        }),
{
    let books = remote_ours(remote, Area::Epub);
    let mine = |f: FileView| is_ours(Area::Epub, f.name);
    filter_keeps_distinct(remote, mine);
    downloads_arrive(local, books, Area::Epub);
    let head = fetch_steps(local, remote, Area::Epub);
    let gone = |f: LocalView| !has_remote(books, f.name);
    let out = local.filter(gone);
    let held = kept_after_all(
        keeping(local),
        fetch_steps(local, remote, Area::Epub) + discard_steps(local, remote),
    );
    filter_from(local, gone);
    assert forall|i: int| 0 <= i < books.len() implies held.contains_key(
        (#[trigger] books[i]).name,
    ) && held[books[i].name] == books[i].size by {
        discards_go(keeping(local), head, out, books[i].name);
        if has_local(out, books[i].name) {
            let k = choose|k: int| 0 <= k < out.len() && (#[trigger] out[k]).name == books[i].name;
            assert(gone(out[k]));
        }
    }
    discards_go(keeping(local), head, out, n);
    if held.contains_key(n) && !has_remote(books, n) {
        assert(has_local(local, n));
        let k = choose|k: int| 0 <= k < local.len() && (#[trigger] local[k]).name == n;
        filter_step(local, k, gone);
        let now = local.take(k + 1).filter(gone);
        filter_of_prefix(local, k + 1, gone);
        assert(now[now.len() - 1] == local[k]);
        assert(out[now.len() - 1].name == n);
    }
}

proof fn filter_keeps_distinct(files: Seq<FileView>, f: spec_fn(FileView) -> bool)
    requires
        distinct_names(files),
    ensures
        distinct_names(files.filter(f)),
    decreases files.len(),
{
    reveal(Seq::filter);
    if files.len() > 0 {
        let init = files.drop_last();
        assert(distinct_names(init)) by {
            assert forall|i: int, j: int| 0 <= i < j < init.len() implies (#[trigger] init[i]).name
                != (#[trigger] init[j]).name by {
                assert(files[i].name != files[j].name);
            }
        }
        filter_keeps_distinct(init, f);
        filter_from(init, f);
        let before = init.filter(f);
        let now = files.filter(f);
        assert forall|i: int, j: int| 0 <= i < j < now.len() implies (#[trigger] now[i]).name != (
        #[trigger] now[j]).name by {
            if j < before.len() {
                assert(before[i].name != before[j].name);
            } else {
                assert(now[i] == before[i]);
                assert(init.contains(before[i]));
                let k = choose|k: int| 0 <= k < init.len() && init[k] == before[i];
                assert(files[k].name != files[files.len() - 1].name);
            }
        }
    }
}

/// A synchronisation of books is about the names that end in `.epub`, be the letters small or
/// capital; one of covers is about those that do not begin with a dot.
pub proof fn what_a_synchronisation_is_about(name: Seq<char>)
    ensures
        is_ours(Area::Epub, name) <==> (lowercase(name).len() >= ".epub"@.len() && lowercase(
            name,
        ).skip(lowercase(name).len() - ".epub"@.len()) == ".epub"@),
        is_ours(Area::Cover, name) <==> name.len() == 0 || name[0] != '.',
{
    let low = lowercase(name);
    let end = ".epub"@;
    if low.len() >= end.len() {
        assert(low.skip(low.len() - end.len()) =~= low.subrange(
            low.len() - end.len(),
            low.len() as int,
        ));
    }
}

/// A push leaves alone the files that the server has in the same size, empty ones excepted, and
/// uploads every other one from where it lies; it takes off the server each file that it is
/// about and that the library does not have, and no other. `n` steps bring files, in the order
/// of the library.
pub proof fn steps_of_a_push(local: Seq<LocalView>, remote: Seq<FileView>, area: Area, i: int)
    requires
        0 <= i < push_steps(local, remote, area).len(),
        distinct_names(remote),
    ensures
        ({
            let s = push_steps(local, remote, area)[i];
            if i < local.len() {
                &&& s.name == local[i].name
                &&& s.path == local[i].path
                &&& s.size == local[i].size
                &&& s.area == area
                &&& s.act == Act::Skip || s.act == Act::Upload
                &&& s.act == Act::Skip <==> local[i].size > 0 && exists|k: int|
                    0 <= k < remote.len() && (#[trigger] remote[k]).name == local[i].name
                        && remote[k].size == local[i].size
            } else {
                &&& s.act == Act::DeleteRemote
                &&& s.area == area
                &&& is_ours(area, s.name)
                &&& !has_local(local, s.name)
                &&& has_remote(remote, s.name)
            }
        }),
        forall|k: int|
            0 <= k < remote.len() && is_ours(area, (#[trigger] remote[k]).name) && !has_local(
                local,
                remote[k].name,
            ) ==> exists|j: int|
                0 <= j < push_steps(local, remote, area).len() && (#[trigger] push_steps(
                    local,
                    remote,
                    area,
                )[j]).name == remote[k].name && push_steps(local, remote, area)[j].act
                    == Act::DeleteRemote,
{
    let f = |f: FileView| is_ours(area, f.name) && !has_local(local, f.name);
    let all = push_steps(local, remote, area);
    let gone = left_over(local, remote, area);
    let m = filter_places(remote, f);
    if i < local.len() {
        size_is_that_of_the_file(remote, local[i].name);
        let x = local[i];
        match file_at(remote, x.name) {
            Some(k) => {
                if remote[k].size == x.size {
                    assert(remote[k].name == x.name);
                }
                if exists|q: int|
                    0 <= q < remote.len() && (#[trigger] remote[q]).name == x.name && remote[q].size
                        == x.size {
                    let q = choose|q: int|
                        0 <= q < remote.len() && (#[trigger] remote[q]).name == x.name
                            && remote[q].size == x.size;
                    if q < k {
                        assert(remote[q].name != remote[k].name);
                    } else if k < q {
                        assert(remote[k].name != remote[q].name);
                    }
                }
            },
            None => {},
        }
    } else {
        let k = i - local.len();
        assert(gone[k] == remote[m[k]]);
        assert(all[i] == remove_step(gone[k], area));
    }
    assert forall|k: int|
        0 <= k < remote.len() && is_ours(area, (#[trigger] remote[k]).name) && !has_local(
            local,
            remote[k].name,
        ) implies exists|j: int|
        0 <= j < all.len() && (#[trigger] all[j]).name == remote[k].name && all[j].act
            == Act::DeleteRemote by {
        assert(f(remote[k]));
        assert(m.contains(k));
        let q = choose|q: int| 0 <= q < m.len() && m[q] == k;
        let j = local.len() + q;
        assert(all[j] == remove_step(gone[q], area));
    }
}

proof fn size_is_that_of_the_file(files: Seq<FileView>, name: Seq<char>)
    ensures
        match file_at(files, name) {
            Some(k) => 0 <= k < files.len() && files[k].name == name,
            None => forall|k: int| 0 <= k < files.len() ==> (#[trigger] files[k]).name != name,
        },
    decreases files.len(),
{
    if files.len() > 0 && files.last().name != name {
        let init = files.drop_last();
        size_is_that_of_the_file(init, name);
        match file_at(init, name) {
            Some(k) => {
                assert(files[k] == init[k]);
            },
            None => {
                assert forall|k: int| 0 <= k < files.len() implies (#[trigger] files[k]).name
                    != name by {
                    if k < init.len() {
                        assert(init[k] == files[k]);
                    }
                }
            },
        }
    }
}

/// A pull leaves alone the files that the library has in the same size, empty ones excepted, and
/// fetches every other one that it is about, in the order of the server.
pub proof fn steps_of_a_pull(
    local: Seq<LocalView>,
    remote: Seq<FileView>,
    area: Area,
    i: int,
) -> (m: Seq<int>)
    ensures
        m.len() == fetch_steps(local, remote, area).len(),
        forall|a: int, b: int| 0 <= a < b < m.len() ==> #[trigger] m[a] < #[trigger] m[b],
        forall|k: int|
            0 <= k < remote.len() && is_ours(area, (#[trigger] remote[k]).name) ==> m.contains(k),
        0 <= i < m.len() ==> {
            let s = fetch_steps(local, remote, area)[i];
            let f = remote[m[i]];
            &&& 0 <= m[i] < remote.len() && is_ours(area, f.name)
            &&& s.name == f.name && s.size == f.size && s.area == area
            &&& s.act == Act::Skip || s.act == Act::Download
            &&& s.act == Act::Skip <==> f.size > 0 && exists|k: int|
                0 <= k < local.len() && (#[trigger] local[k]).name == f.name && local[k].size
                    == f.size
        },
{
    let f = |f: FileView| is_ours(area, f.name);
    let m = filter_places(remote, f);
    assert forall|k: int|
        0 <= k < remote.len() && is_ours(area, (#[trigger] remote[k]).name) implies m.contains(
        k,
    ) by {
        assert(f(remote[k]));
    }
    m
}

/// The covers that are synchronised are those of the first directory and then those of the
/// other whose names it does not have; hidden files are none.
pub proof fn covers_are_those_of_both_directories(
    main: Seq<LocalView>,
    other: Seq<LocalView>,
    n: Seq<char>,
)
    ensures
        has_local(with_covers(with_covers(Seq::empty(), main), other), n) <==> (n.len() == 0 || n[0]
            != '.') && (has_local(main, n) || has_local(other, n)),
        distinct_locals(with_covers(with_covers(Seq::empty(), main), other)),
{
    covers_added(Seq::empty(), main, n);
    covers_added(with_covers(Seq::empty(), main), other, n);
}

proof fn covers_added(files: Seq<LocalView>, more: Seq<LocalView>, n: Seq<char>)
    requires
        distinct_locals(files),
    ensures
        has_local(with_covers(files, more), n) <==> has_local(files, n) || (!is_hidden(n)
            && has_local(more, n)),
        distinct_locals(with_covers(files, more)),
    decreases more.len(),
{
    if more.len() > 0 {
        let init = more.drop_last();
        covers_added(files, init, n);
        let before = with_covers(files, init);
        let now = with_covers(files, more);
        let f = more.last();
        if has_local(before, n) {
            let i = choose|i: int| 0 <= i < before.len() && (#[trigger] before[i]).name == n;
            assert(now[i].name == n);
        }
        if has_local(now, n) && !has_local(before, n) {
            let i = choose|i: int| 0 <= i < now.len() && (#[trigger] now[i]).name == n;
            if i < before.len() {
                assert(before[i].name == n);
            }
        }
        if has_local(init, n) {
            let i = choose|i: int| 0 <= i < init.len() && (#[trigger] init[i]).name == n;
            assert(more[i].name == n);
        }
        if has_local(more, n) {
            let i = choose|i: int| 0 <= i < more.len() && (#[trigger] more[i]).name == n;
            if i < init.len() {
                assert(init[i].name == n);
            }
        }
        if f.name == n {
            assert(more[more.len() - 1].name == n);
            if !is_hidden(n) && !has_local(before, n) {
                assert(now[before.len() as int].name == n);
            }
        }
        assert forall|i: int, j: int| 0 <= i < j < now.len() implies (#[trigger] now[i]).name != (
        #[trigger] now[j]).name by {
            assert(now[i] == before[i]);
            if j < before.len() {
                assert(now[j] == before[j]);
            }
        }
    }
}

/// The books that are synchronised are the files whose extension is `epub`, be the letters small
/// or capital: all of them, once each, in the order of their names.
pub proof fn books_are_listed_by_name(files: Seq<LocalView>) -> (o: Seq<int>)
    ensures
        o.len() == books_among(files).len(),
        o.no_duplicates(),
        forall|i: int|
            0 <= i < o.len() ==> 0 <= #[trigger] o[i] < files.len() && books_among(files)[i]
                == files[o[i]] && has_book_extension(files[o[i]].name),
        forall|p: int|
            0 <= p < files.len() && has_book_extension((#[trigger] files[p]).name) ==> o.contains(
                p,
            ),
        forall|i: int, j: int|
            0 <= i < j < o.len() ==> files[#[trigger] o[i]].name == files[#[trigger] o[j]].name
                || text_le(files[o[i]].name, files[o[j]].name),
{
    let f = |f: LocalView| has_book_extension(f.name);
    let o = chosen_places(files, f, |f: LocalView| by_name(f));
    assert forall|p: int|
        0 <= p < files.len() && has_book_extension((#[trigger] files[p]).name) implies o.contains(
        p,
    ) by {
        assert(f(files[p]));
    }
    o
}

/// What a step counts for: one that is done for what it does, one that is skipped as skipped
/// where it is about a book, and one that fails as a failure, whatever it was to do. Only a
/// failure is listed, behind those before it.
pub proof fn what_a_step_counts_for(
    before: SyncReport,
    after: SyncReport,
    act: Act,
    area: Area,
    name: Seq<char>,
    outcome: StepOutcome,
)
    requires
        after.counts(before, act, area, name, outcome),
    ensures
        after.total == before.total,
        act != Act::Skip && outcome !is Done ==> {
            &&& after.failed == before.failed + 1
            &&& after.uploaded == before.uploaded && after.downloaded == before.downloaded
            &&& after.deleted == before.deleted && after.skipped == before.skipped
            &&& strs(after.errors@).len() == strs(before.errors@).len() + 1
            &&& strs(before.errors@).is_prefix_of(strs(after.errors@))
        },
        act == Act::Skip || outcome is Done ==> after.failed == before.failed && strs(after.errors@)
            == strs(before.errors@),
        act == Act::Upload && outcome is Done ==> after.uploaded == before.uploaded + 1
            && after.downloaded == before.downloaded && after.deleted == before.deleted
            && after.skipped == before.skipped,
        act == Act::Download && outcome is Done ==> after.downloaded == before.downloaded + 1
            && after.uploaded == before.uploaded && after.deleted == before.deleted && after.skipped
            == before.skipped,
        (act == Act::DeleteLocal || act == Act::DeleteRemote) && outcome is Done ==> after.deleted
            == before.deleted + 1 && after.uploaded == before.uploaded && after.downloaded
            == before.downloaded && after.skipped == before.skipped,
        act == Act::Skip && area == Area::Epub ==> after.skipped == before.skipped + 1
            && after.uploaded == before.uploaded && after.downloaded == before.downloaded
            && after.deleted == before.deleted,
        act == Act::Skip && area == Area::Cover ==> after.counted() == before.counted(),
{
}

/// What a failure is listed as: the file it is about, in the directory of covers for a cover,
/// what could not be done, and why.
pub proof fn what_a_failure_is_listed_as(act: Act, area: Area, name: Seq<char>, e: String)
    ensures
        ({
            let place = if area == Area::Cover {
                "covers/"@ + name
            } else {
                name
            };
            let failed = StepOutcome::Failed(e);
            &&& error_text(act, area, name, StepOutcome::Done) is None
            &&& error_text(Act::Skip, area, name, failed) is None
            &&& act != Act::Skip ==> error_text(act, area, name, StepOutcome::Unreadable(e)) == Some(
                place + ": 读取失败 "@ + e@,
            )
            &&& error_text(Act::Upload, area, name, failed) == Some(place + ": 上传失败 "@ + e@)
            &&& error_text(Act::Download, area, name, failed) == Some(place + ": 下载失败 "@ + e@)
            &&& error_text(Act::DeleteRemote, area, name, failed) == Some(
                place + ": 远端删除失败 "@ + e@,
            )
            &&& error_text(Act::DeleteLocal, area, name, failed) == Some(
                place + ": 本地删除失败 "@ + e@ + "（文件可能正被阅读器占用）"@,
            )
        }),
{
}

} // verus!
