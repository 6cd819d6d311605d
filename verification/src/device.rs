//! Copying books to a reading device.
use vstd::prelude::*;
use vstd::string::*;

use crate::paths::{join_path, path_in, same_parts, same_path};
use crate::queries::LocalBook;
use crate::text::{dec, dec_u64};
use crate::seqs::{filter_none, filter_step};

verus! {

/// A device that books can be copied to.
#[derive(Debug)]
pub struct Device {
    /// `Kindle`, `Kobo` or `USB`.
    pub kind_label: String,
    pub mount_point: String,
    /// Where the books go.
    pub target_dir: String,
}

impl Device {
    /// The line that shows the device.
    pub fn display(&self) -> (r: String)
        ensures
            r@ == "["@ + self.kind_label@ + "] "@ + self.mount_point@,
    {
        "[".to_owned().concat(&self.kind_label).concat("] ").concat(&self.mount_point)
    }
}

/// What was seen of a disk.
#[derive(Debug)]
pub struct Disk {
    pub mount_point: String,
    /// Whether there is a directory `documents`.
    pub has_documents: bool,
    /// Whether there is a directory `system`.
    pub has_system: bool,
    /// Whether there is a directory `.kobo`.
    pub has_kobo: bool,
    pub removable: bool,
}

/// The kind of a device and where its books go.
#[verifier::ext_equal]
pub struct DeviceView {
    pub kind: Seq<char>,
    pub mount: Seq<char>,
    pub target: Seq<char>,
}

impl View for Device {
    type V = DeviceView;

    open spec fn view(&self) -> DeviceView {
        DeviceView {
            kind: self.kind_label@,
            mount: self.mount_point@,
            target: self.target_dir@,
        }
    }
}

/// The device that a disk is: a Kindle has documents and a system, a Kobo its own directory,
/// and any other disk can be removed. The root is none.
pub open spec fn device_on(d: Disk) -> Option<DeviceView> {
    let mount = d.mount_point@;
    if same_parts(mount, "/"@) {
        None
    } else if d.has_documents && d.has_system {
        Some(DeviceView { kind: "Kindle"@, mount, target: path_in(mount, "documents"@) })
    } else if d.has_kobo {
        Some(DeviceView { kind: "Kobo"@, mount, target: mount })
    } else if d.removable {
        Some(DeviceView { kind: "USB"@, mount, target: mount })
    } else {
        None
    }
}

/// The device that a disk is.
pub fn device_of(d: &Disk) -> (r: Option<Device>)
    ensures
        match r {
            Some(x) => device_on(*d) == Some(x@),
            None => device_on(*d) is None,
        },
{
    let mount = d.mount_point.as_str();
    if same_path(mount, "/") {
        return None;
    }
    if d.has_documents && d.has_system {
        Some(
            Device {
                kind_label: "Kindle".to_owned(),
                mount_point: mount.to_owned(),
                target_dir: join_path(mount, "documents"),
            },
        )
    } else if d.has_kobo {
        Some(
            Device {
                kind_label: "Kobo".to_owned(),
                mount_point: mount.to_owned(),
                target_dir: mount.to_owned(),
            },
        )
    } else if d.removable {
        Some(
            Device {
                kind_label: "USB".to_owned(),
                mount_point: mount.to_owned(),
                target_dir: mount.to_owned(),
            },
        )
    } else {
        None
    }
}

/// The devices among the disks.
pub open spec fn devices_on(disks: Seq<Disk>) -> Seq<DeviceView>
    decreases disks.len(),
{
    if disks.len() == 0 {
        Seq::empty()
    } else {
        let before = devices_on(disks.drop_last());
        match device_on(disks.last()) {
            Some(d) => before.push(d),
            None => before,
        }
    }
}

/// What the devices are.
pub open spec fn device_views(v: Seq<Device>) -> Seq<DeviceView> {
    v.map_values(|d: Device| d@)
}

/// The devices among the disks.
pub fn detect_devices(disks: &Vec<Disk>) -> (r: Vec<Device>)
    ensures
        device_views(r@) == devices_on(disks@),
{
    let mut out: Vec<Device> = Vec::new();
    let mut i: usize = 0;
    assert(disks@.take(0) =~= Seq::<Disk>::empty());
    assert(device_views(out@) =~= devices_on(disks@.take(0)));
    while i < disks.len()
        invariant
            i <= disks@.len(),
            device_views(out@) == devices_on(disks@.take(i as int)),
        decreases disks@.len() - i,
    {
        assert(disks@.take(i + 1).drop_last() =~= disks@.take(i as int));
        assert(disks@.take(i + 1).last() == disks@[i as int]);
        let ghost before = out@;
        match device_of(&disks[i]) {
            Some(d) => {
                out.push(d);
                assert(device_views(out@) =~= device_views(before).push(d@));
            },
            None => {},
        }
        i += 1;
    }
    assert(disks@.take(disks@.len() as int) =~= disks@);
    out
}

/// The text where there is no device.
pub const NO_DEVICE: &'static str =
    "未检测到可同步的 USB 设备。\n提示：MTP 协议设备（新款 Kindle 等）不受支持，请将设备切换为 USB 大容量存储模式，或手动复制书库文件。";

/// The text where no book has a file in the library.
pub const NO_BOOK: &'static str = "书库中没有可同步的书籍（需先通过 add 导入）。";

/// The books with a file in the library.
pub open spec fn with_files(books: Seq<LocalBook>) -> Seq<LocalBook> {
    books.filter(|b: LocalBook| b.library_file@.len() > 0)
}

/// The places of the books with a file in the library; without any, the text that says so.
pub fn books_to_copy(books: &Vec<LocalBook>) -> (r: Result<Vec<usize>, String>)
    ensures
        match r {
            Ok(v) => {
                &&& v@.len() > 0
                &&& forall|k: int| 0 <= k < v@.len() ==> (#[trigger] v@[k]) < books@.len()
                &&& v@.map_values(|k: usize| books@[k as int]) == with_files(books@)
            },
            Err(e) => with_files(books@).len() == 0 && e@ == NO_BOOK@,
        },
{
    let ghost f = |b: LocalBook| b.library_file@.len() > 0;
    let ghost at = |k: usize| books@[k as int];
    let mut out: Vec<usize> = Vec::new();
    let mut i: usize = 0;
    proof {
        filter_none(books@, f);
        assert(out@.map_values(at) =~= books@.take(0).filter(f));
    }
    while i < books.len()
        invariant
            i <= books@.len(),
            f == (|b: LocalBook| b.library_file@.len() > 0),
            at == (|k: usize| books@[k as int]),
            forall|k: int| 0 <= k < out@.len() ==> (#[trigger] out@[k]) < books@.len(),
            out@.map_values(at) == books@.take(i as int).filter(f),
        decreases books@.len() - i,
    {
        let ghost before = out@;
        proof {
            filter_step(books@, i as int, f);
        }
        if !books[i].library_file.as_str().is_empty() {
            out.push(i);
            assert(out@.map_values(at) =~= before.map_values(at).push(books@[i as int]));
        }
        i += 1;
    }
    assert(books@.take(books@.len() as int) =~= books@);
    assert(out@.map_values(at).len() == out@.len());
    if out.len() == 0 {
        return Err(NO_BOOK.to_owned());
    }
    Ok(out)
}

/// One book to copy.
#[derive(Debug)]
pub struct CopyJob {
    pub title: String,
    pub from: String,
    pub to: String,
}

/// How a book is copied from the library to a device.
pub fn copy_job(lib: &str, device: &Device, b: &LocalBook) -> (r: CopyJob)
    ensures
        r.title@ == b.title@,
        r.from@ == path_in(lib@, b.library_file@),
        r.to@ == path_in(device.target_dir@, b.library_file@),
{
    CopyJob {
        title: b.title.as_str().to_owned(),
        from: join_path(lib, &b.library_file),
        to: join_path(&device.target_dir, &b.library_file),
    }
}

/// What became of a book.
#[derive(Debug, Clone, Copy, PartialEq, Eq, Structural)]
pub enum CopyOutcome {
    Copied,
    /// The library has no such file.
    Missing,
    Failed,
}

/// How many books have been copied, and how many have not.
#[derive(Debug)]
pub struct CopyCount {
    pub copied: u64,
    pub failed: u64,
    /// How many are still to come.
    pub left: u64,
}

impl CopyCount {
    /// No book has been lost count of.
    pub open spec fn wf(&self, total: nat) -> bool {
        self.copied + self.failed + self.left == total
    }

    pub fn start(total: u64) -> (r: CopyCount)
        ensures
            r.wf(total as nat),
            r.copied == 0,
            r.failed == 0,
    {
        CopyCount { copied: 0, failed: 0, left: total }
    }

    /// Counts one book; behind the last there is none to count.
    pub fn count(&mut self, outcome: CopyOutcome)
        requires
            old(self).copied + old(self).failed + old(self).left <= u64::MAX,
        ensures
            final(self).copied + final(self).failed + final(self).left == old(self).copied
                + old(self).failed + old(self).left,
            old(self).left == 0 ==> *final(self) == *old(self),
            old(self).left > 0 ==> final(self).left == old(self).left - 1,
            old(self).left > 0 ==> final(self).copied == old(self).copied + (if outcome
                == CopyOutcome::Copied {
                1int
            } else {
                0
            }),
    {
        if self.left > 0 {
            self.left = self.left - 1;
            if outcome == CopyOutcome::Copied {
                self.copied = self.copied + 1;
            } else {
                self.failed = self.failed + 1;
            }
        }
    }

    /// The line that ends the copying.
    pub fn summary(&self) -> (r: String)
        ensures
            r@ == "\n同步完成：成功 "@ + dec(self.copied as nat) + " 本，失败 "@ + dec(self.failed as nat)
                + " 本"@,
    {
        "\n同步完成：成功 ".to_owned().concat(&dec_u64(self.copied)).concat(" 本，失败 ").concat(
            &dec_u64(self.failed),
        ).concat(" 本")
    }
}

/// A disk with documents and a system is a Kindle, and books go to its documents; one with the
/// directory of Kobo is a Kobo, any other that can be removed is a plain one, and books go to
/// where it is mounted. The root is never a device, nor is any other disk.
pub proof fn which_disks_are_devices(d: Disk)
    ensures
        same_parts(d.mount_point@, "/"@) ==> device_on(d) is None,
        !same_parts(d.mount_point@, "/"@) ==> {
            &&& device_on(d) is Some <==> d.has_documents && d.has_system || d.has_kobo
                || d.removable
            &&& device_on(d) matches Some(v) ==> v.mount == d.mount_point@
            &&& d.has_documents && d.has_system ==> (device_on(d)->0).kind == "Kindle"@ && (
            device_on(d)->0).target == path_in(d.mount_point@, "documents"@)
            &&& !(d.has_documents && d.has_system) && d.has_kobo ==> (device_on(d)->0).kind
                == "Kobo"@ && (device_on(d)->0).target == d.mount_point@
            &&& !(d.has_documents && d.has_system) && !d.has_kobo && d.removable ==> (device_on(
                d,
            )->0).kind == "USB"@ && (device_on(d)->0).target == d.mount_point@
        },
{
}

/// Every disk that is a device is listed, in the order of the disks, and nothing else. `m` says
/// which disk each device is.
pub proof fn every_device_is_listed(disks: Seq<Disk>) -> (m: Seq<int>)
    ensures
        m.len() == devices_on(disks).len(),
        forall|i: int|
            0 <= i < m.len() ==> 0 <= #[trigger] m[i] < disks.len() && device_on(disks[m[i]])
                == Some(devices_on(disks)[i]),
        forall|i: int, j: int| 0 <= i < j < m.len() ==> #[trigger] m[i] < #[trigger] m[j],
        forall|p: int|
            0 <= p < disks.len() && device_on(#[trigger] disks[p]) is Some ==> m.contains(p),
    decreases disks.len(),
{
    if disks.len() == 0 {
        Seq::empty()
    } else {
        let init = disks.drop_last();
        let before = every_device_is_listed(init);
        let last = disks.len() - 1;
        let m = if device_on(disks.last()) is Some {
            before.push(last)
        } else {
            before
        };
        assert forall|i: int| 0 <= i < m.len() implies 0 <= #[trigger] m[i] < disks.len()
            && device_on(disks[m[i]]) == Some(devices_on(disks)[i]) by {
            if i < before.len() {
                assert(m[i] == before[i]);
                assert(init[before[i]] == disks[m[i]]);
            }
        }
        assert forall|i: int, j: int| 0 <= i < j < m.len() implies #[trigger] m[i]
            < #[trigger] m[j] by {
            assert(m[i] == before[i]);
            if j < before.len() {
                assert(m[j] == before[j]);
            }
        }
        assert forall|p: int|
            0 <= p < disks.len() && device_on(#[trigger] disks[p]) is Some implies m.contains(
            p,
        ) by {
            if p < last {
                assert(init[p] == disks[p]);
                assert(before.contains(p));
                let i = choose|i: int| 0 <= i < before.len() && before[i] == p;
                assert(m[i] == p);
            } else {
                assert(m[before.len() as int] == p);
            }
        }
        m
    }
}

} // verus!
