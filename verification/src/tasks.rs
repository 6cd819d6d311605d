//! Tasks that run for long, and what they leave for later.
use vstd::prelude::*;
use vstd::string::*;

use crate::ingestion::{CancelToken, PreparedImport};
use crate::text::{opt_str, same};
use crate::webdav::SyncCancel;
use crate::db::opt_view;

verus! {

/// Values by key.
#[derive(Debug)]
pub struct Table<T> {
    pub rows: Vec<(String, T)>,
}

/// The value of the last row with the key.
pub open spec fn value_at<T>(rows: Seq<(String, T)>, key: Seq<char>) -> Option<T>
    decreases rows.len(),
{
    if rows.len() == 0 {
        None
    } else if rows.last().0@ == key {
        Some(rows.last().1)
    } else {
        value_at(rows.drop_last(), key)
    }
}

proof fn value_is_there<T>(rows: Seq<(String, T)>, key: Seq<char>)
    ensures
        value_at(rows, key) is Some <==> exists|i: int|
            0 <= i < rows.len() && (#[trigger] rows[i]).0@ == key,
    decreases rows.len(),
{
    if rows.len() > 0 {
        let less = rows.drop_last();
        value_is_there(less, key);
        assert(rows[rows.len() - 1] == rows.last());
        if exists|i: int| 0 <= i < less.len() && (#[trigger] less[i]).0@ == key {
            let i = choose|i: int| 0 <= i < less.len() && (#[trigger] less[i]).0@ == key;
            assert(rows[i].0@ == key);
        }
        if exists|i: int| 0 <= i < rows.len() && (#[trigger] rows[i]).0@ == key {
            let i = choose|i: int| 0 <= i < rows.len() && (#[trigger] rows[i]).0@ == key;
            if i < less.len() {
                assert(less[i].0@ == key);
            }
        }
    }
}

proof fn removal_keeps_others<T>(rows: Seq<(String, T)>, i: int, key: Seq<char>)
    requires
        0 <= i < rows.len(),
        rows[i].0@ != key,
    ensures
        value_at(rows.remove(i), key) == value_at(rows, key),
    decreases rows.len(),
{
    let left = rows.remove(i);
    if i == rows.len() - 1 {
        assert(left =~= rows.drop_last());
    } else {
        removal_keeps_others(rows.drop_last(), i, key);
        assert(left.drop_last() =~= rows.drop_last().remove(i));
        assert(left.last() == rows.last());
    }
}

proof fn only_row_has_the_value<T>(rows: Seq<(String, T)>, i: int)
    requires
        0 <= i < rows.len(),
        keys_differ(rows),
    ensures
        value_at(rows, rows[i].0@) == Some(rows[i].1),
    decreases rows.len(),
{
    if i < rows.len() - 1 {
        let less = rows.drop_last();
        assert(rows[i].0@ != rows[rows.len() - 1].0@);
        assert forall|a: int, b: int| 0 <= a < b < less.len() implies (#[trigger] less[a]).0@ != (
        #[trigger] less[b]).0@ by {
            assert(rows[a].0@ != rows[b].0@);
        }
        only_row_has_the_value(less, i);
    }
}

/// The keys of the rows differ.
pub open spec fn keys_differ<T>(rows: Seq<(String, T)>) -> bool {
    forall|a: int, b: int|
        0 <= a < b < rows.len() ==> (#[trigger] rows[a]).0@ != (#[trigger] rows[b]).0@
}

impl<T> Table<T> {
    /// No key has two values.
    pub open spec fn wf(&self) -> bool {
        keys_differ(self.rows@)
    }

    /// The value of a key.
    pub open spec fn at(&self, key: Seq<char>) -> Option<T> {
        value_at(self.rows@, key)
    }

    pub fn new() -> (r: Table<T>)
        ensures
            r.wf(),
            forall|k: Seq<char>| #[trigger] r.at(k) is None,
    {
        Table { rows: Vec::new() }
    }

    fn index_of(&self, key: &str) -> (r: Option<usize>)
        requires
            self.wf(),
        ensures
            match r {
                Some(i) => i < self.rows@.len() && self.rows@[i as int].0@ == key@ && self.at(key@)
                    == Some(self.rows@[i as int].1),
                None => self.at(key@) is None && forall|i: int|
                    0 <= i < self.rows@.len() ==> (#[trigger] self.rows@[i]).0@ != key@,
            },
    {
        let mut i: usize = 0;
        while i < self.rows.len()
            invariant
                i <= self.rows@.len(),
                self.wf(),
                forall|j: int| 0 <= j < i ==> (#[trigger] self.rows@[j]).0@ != key@,
            decreases self.rows@.len() - i,
        {
            if same(&self.rows[i].0, key) {
                proof {
                    only_row_has_the_value(self.rows@, i as int);
                }
                return Some(i);
            }
            i += 1;
        }
        proof {
            value_is_there(self.rows@, key@);
        }
        None
    }

    /// Takes the value of a key out.
    pub fn take(&mut self, key: &str) -> (r: Option<T>)
        requires
            old(self).wf(),
        ensures
            final(self).wf(),
            r == old(self).at(key@),
            forall|k: Seq<char>| #[trigger]
                final(self).at(k) == (if k == key@ {
                    None
                } else {
                    old(self).at(k)
                }),
    {
        match self.index_of(key) {
            Some(i) => {
                let ghost was = self.rows@;
                let row = self.rows.remove(i);
                proof {
                    let now = self.rows@;
                    assert(now =~= was.remove(i as int));
                    assert forall|a: int, b: int| 0 <= a < b < now.len() implies (
                    #[trigger] now[a]).0@ != (#[trigger] now[b]).0@ by {
                        let x = if a < i {
                            a
                        } else {
                            a + 1
                        };
                        let y = if b < i {
                            b
                        } else {
                            b + 1
                        };
                        assert(was[x].0@ != was[y].0@);
                    }
                    assert forall|k: Seq<char>| #[trigger] self.at(k) == (if k == key@ {
                        None
                    } else {
                        old(self).at(k)
                    }) by {
                        if k == key@ {
                            value_is_there(now, k);
                            assert forall|a: int| 0 <= a < now.len() implies (
                            #[trigger] now[a]).0@ != key@ by {
                                if a < i {
                                    assert(was[a].0@ != was[i as int].0@);
                                } else {
                                    assert(was[i as int].0@ != was[a + 1].0@);
                                }
                            }
                        } else {
                            removal_keeps_others(was, i as int, k);
                        }
                    }
                }
                Some(row.1)
            },
            None => None,
        }
    }

    /// Gives a key a value.
    pub fn put(&mut self, key: &str, value: T)
        requires
            old(self).wf(),
        ensures
            final(self).wf(),
            forall|k: Seq<char>| #[trigger]
                final(self).at(k) == (if k == key@ {
                    Some(value)
                } else {
                    old(self).at(k)
                }),
    {
        let _ = self.take(key);
        let ghost mid = *self;
        let ghost was = self.rows@;
        proof {
            assert(self.at(key@) is None);
            value_is_there(was, key@);
        }
        self.rows.push((key.to_owned(), value));
        proof {
            let now = self.rows@;
            assert(now.drop_last() =~= was);
            assert forall|a: int, b: int| 0 <= a < b < now.len() implies (#[trigger] now[a]).0@
                != (#[trigger] now[b]).0@ by {
                if b < was.len() {
                    assert(was[a].0@ != was[b].0@);
                } else {
                    assert(was[a].0@ != key@);
                }
            }
            assert forall|k: Seq<char>| #[trigger] self.at(k) == (if k == key@ {
                Some(value)
            } else {
                old(self).at(k)
            }) by {
                if k != key@ {
                    assert(mid.at(k) == old(self).at(k));
                    assert(value_at(was, k) == mid.at(k));
                }
            }
        }
    }

    /// Whether a key has a value.
    pub fn has(&self, key: &str) -> (r: bool)
        requires
            self.wf(),
        ensures
            r == (self.at(key@) is Some),
    {
        match self.index_of(key) {
            Some(_) => true,
            None => false,
        }
    }
}

/// The tasks that can be asked to stop.
#[derive(Debug)]
pub struct TaskRegistry {
    pub tasks: Table<CancelToken>,
}

impl TaskRegistry {
    pub open spec fn wf(&self) -> bool {
        self.tasks.wf()
    }

    /// Whether a task is there.
    pub open spec fn runs(&self, id: Seq<char>) -> bool {
        self.tasks.at(id) is Some
    }

    /// Whether a task was asked to stop.
    pub open spec fn stopped(&self, id: Seq<char>) -> bool {
        self.tasks.at(id) matches Some(t) && t.cancelled
    }

    pub fn new() -> (r: TaskRegistry)
        ensures
            r.wf(),
            forall|k: Seq<char>| !#[trigger] r.runs(k),
    {
        let r = TaskRegistry { tasks: Table::new() };
        assert forall|k: Seq<char>| !#[trigger] r.runs(k) by {
            assert(r.tasks.at(k) is None);
        }
        r
    }

    /// A task begins; it was not asked to stop yet.
    pub fn register_task(&mut self, id: &str)
        requires
            old(self).wf(),
        ensures
            final(self).wf(),
            final(self).runs(id@),
            !final(self).stopped(id@),
            forall|k: Seq<char>|
                k != id@ ==> #[trigger] final(self).runs(k) == old(self).runs(k)
                    && final(self).stopped(k) == old(self).stopped(k),
    {
        self.tasks.put(id, CancelToken::new());
        proof {
            assert(self.tasks.at(id@) is Some);
            assert forall|k: Seq<char>| k != id@ implies #[trigger] self.runs(k) == old(self).runs(
                k,
            ) && self.stopped(k) == old(self).stopped(k) by {
                assert(self.tasks.at(k) == old(self).tasks.at(k));
            }
        }
    }

    /// A task is over.
    pub fn finish_task(&mut self, id: Option<&str>)
        requires
            old(self).wf(),
        ensures
            final(self).wf(),
            forall|k: Seq<char>| #[trigger]
                final(self).runs(k) == (old(self).runs(k) && opt_view(id) != Some(k)),
            forall|k: Seq<char>| #[trigger]
                final(self).stopped(k) == (old(self).stopped(k) && opt_view(id) != Some(
                    k,
                )),
    {
        match id {
            Some(id) => {
                let _ = self.tasks.take(id);
                proof {
                    assert forall|k: Seq<char>| #[trigger] self.runs(k) == (old(self).runs(k) && k
                        != id@) by {
                        assert(self.tasks.at(k) == self.tasks.at(k));
                    }
                    assert forall|k: Seq<char>| #[trigger] self.stopped(k) == (old(self).stopped(k)
                        && k != id@) by {
                        assert(self.tasks.at(k) == self.tasks.at(k));
                    }
                }
            },
            None => {},
        }
    }

    /// Asks a task to stop. Answers whether it is there.
    pub fn cancel_task(&mut self, id: &str) -> (r: bool)
        requires
            old(self).wf(),
        ensures
            final(self).wf(),
            r == old(self).runs(id@),
            forall|k: Seq<char>| #[trigger] final(self).runs(k) == old(self).runs(k),
            forall|k: Seq<char>| #[trigger]
                final(self).stopped(k) == (old(self).stopped(k) || (k == id@ && r)),
    {
        if !self.tasks.has(id) {
            return false;
        }
        let mut token = CancelToken::new();
        token.cancel();
        self.tasks.put(id, token);
        proof {
            assert forall|k: Seq<char>| #[trigger] self.runs(k) == old(self).runs(k) by {
                assert(self.tasks.at(k) == self.tasks.at(k));
            }
            assert forall|k: Seq<char>| #[trigger] self.stopped(k) == (old(self).stopped(k) || k
                == id@) by {
                assert(self.tasks.at(k) == self.tasks.at(k));
            }
        }
        true
    }

    /// Whether a task was asked to stop.
    pub fn is_cancelled(&self, id: &str) -> (r: bool)
        requires
            self.wf(),
        ensures
            r == self.stopped(id@),
    {
        match self.tasks.index_of(id) {
            Some(i) => self.tasks.rows[i].1.is_cancelled(),
            None => false,
        }
    }
}

/// Imports that wait to be confirmed.
#[derive(Debug)]
pub struct ImportCache {
    pub sessions: Table<PreparedImport>,
}

impl ImportCache {
    pub open spec fn wf(&self) -> bool {
        self.sessions.wf()
    }

    pub fn new() -> (r: ImportCache)
        ensures
            r.wf(),
            forall|k: Seq<char>| #[trigger] r.sessions.at(k) is None,
    {
        ImportCache { sessions: Table::new() }
    }

    /// Keeps an import until it is confirmed.
    pub fn keep(&mut self, id: &str, p: PreparedImport)
        requires
            old(self).wf(),
        ensures
            final(self).wf(),
            forall|k: Seq<char>| #[trigger]
                final(self).sessions.at(k) == (if k == id@ {
                    Some(p)
                } else {
                    old(self).sessions.at(k)
                }),
    {
        self.sessions.put(id, p);
    }

    /// The import that is confirmed.
    pub fn claim(&mut self, id: &str) -> (r: Result<PreparedImport, String>)
        requires
            old(self).wf(),
        ensures
            final(self).wf(),
            match r {
                Ok(p) => old(self).sessions.at(id@) == Some(p),
                Err(e) => old(self).sessions.at(id@) is None && e@ == "导入会话不存在或已过期"@,
            },
            forall|k: Seq<char>| #[trigger]
                final(self).sessions.at(k) == (if k == id@ {
                    None
                } else {
                    old(self).sessions.at(k)
                }),
    {
        match self.sessions.take(id) {
            Some(p) => Ok(p),
            None => Err("导入会话不存在或已过期".to_owned()),
        }
    }

    /// Forgets an import. Answers whether it was there.
    pub fn discard_import(&mut self, id: &str) -> (r: bool)
        requires
            old(self).wf(),
        ensures
            final(self).wf(),
            r == (old(self).sessions.at(id@) is Some),
            forall|k: Seq<char>| #[trigger]
                final(self).sessions.at(k) == (if k == id@ {
                    None
                } else {
                    old(self).sessions.at(k)
                }),
    {
        match self.sessions.take(id) {
            Some(_) => true,
            None => false,
        }
    }

    /// Chooses the cover of an import.
    pub fn set_pending_cover(&mut self, id: &str, image: &str) -> (r: Result<(), String>)
        requires
            old(self).wf(),
        ensures
            final(self).wf(),
            match r {
                Ok(_) => old(self).sessions.at(id@) matches Some(p) && final(self).sessions.at(id@)
                    matches Some(q) && q == (PreparedImport {
                    cover_override: q.cover_override,
                    ..p
                }) && opt_str(q.cover_override) == Some(image@),
                Err(e) => old(self).sessions.at(id@) is None && e@ == "导入会话不存在或已过期"@,
            },
            forall|k: Seq<char>|
                k != id@ ==> #[trigger] final(self).sessions.at(k) == old(self).sessions.at(k),
    {
        match self.sessions.take(id) {
            Some(p) => {
                let mut q = p;
                q.cover_override = Some(image.to_owned());
                self.sessions.put(id, q);
                Ok(())
            },
            None => Err("导入会话不存在或已过期".to_owned()),
        }
    }
}

/// The synchronisations that can be asked to stop.
#[derive(Debug)]
pub struct SyncTaskRegistry {
    pub tasks: Table<SyncCancel>,
}

impl SyncTaskRegistry {
    pub open spec fn wf(&self) -> bool {
        self.tasks.wf()
    }

    /// Whether a synchronisation is there.
    pub open spec fn runs(&self, id: Seq<char>) -> bool {
        self.tasks.at(id) is Some
    }

    /// Whether a synchronisation was asked to stop.
    pub open spec fn stopped(&self, id: Seq<char>) -> bool {
        self.tasks.at(id) matches Some(t) && t.cancelled
    }

    pub fn new() -> (r: SyncTaskRegistry)
        ensures
            r.wf(),
            forall|k: Seq<char>| !#[trigger] r.runs(k),
    {
        let r = SyncTaskRegistry { tasks: Table::new() };
        assert forall|k: Seq<char>| !#[trigger] r.runs(k) by {
            assert(r.tasks.at(k) is None);
        }
        r
    }

    /// A synchronisation begins; it was not asked to stop yet.
    pub fn register_sync_task(&mut self, id: &str)
        requires
            old(self).wf(),
        ensures
            final(self).wf(),
            final(self).runs(id@),
            !final(self).stopped(id@),
            forall|k: Seq<char>|
                k != id@ ==> #[trigger] final(self).runs(k) == old(self).runs(k)
                    && final(self).stopped(k) == old(self).stopped(k),
    {
        self.tasks.put(id, SyncCancel::new());
        proof {
            assert(self.tasks.at(id@) is Some);
            assert forall|k: Seq<char>| k != id@ implies #[trigger] self.runs(k) == old(self).runs(
                k,
            ) && self.stopped(k) == old(self).stopped(k) by {
                assert(self.tasks.at(k) == old(self).tasks.at(k));
            }
        }
    }

    /// A synchronisation is over.
    pub fn finish_sync_task(&mut self, id: Option<&str>)
        requires
            old(self).wf(),
        ensures
            final(self).wf(),
            forall|k: Seq<char>| #[trigger]
                final(self).runs(k) == (old(self).runs(k) && opt_view(id) != Some(k)),
            forall|k: Seq<char>| #[trigger]
                final(self).stopped(k) == (old(self).stopped(k) && opt_view(id) != Some(k)),
    {
        match id {
            Some(id) => {
                let _ = self.tasks.take(id);
                proof {
                    assert forall|k: Seq<char>| #[trigger] self.runs(k) == (old(self).runs(k) && k
                        != id@) by {
                        assert(self.tasks.at(k) == self.tasks.at(k));
                    }
                    assert forall|k: Seq<char>| #[trigger] self.stopped(k) == (old(self).stopped(k)
                        && k != id@) by {
                        assert(self.tasks.at(k) == self.tasks.at(k));
                    }
                }
            },
            None => {},
        }
    }

    /// Asks a synchronisation to stop. Answers whether it is there.
    pub fn cancel_sync_task(&mut self, id: &str) -> (r: bool)
        requires
            old(self).wf(),
        ensures
            final(self).wf(),
            r == old(self).runs(id@),
            forall|k: Seq<char>| #[trigger] final(self).runs(k) == old(self).runs(k),
            forall|k: Seq<char>| #[trigger]
                final(self).stopped(k) == (old(self).stopped(k) || (k == id@ && r)),
    {
        if !self.tasks.has(id) {
            return false;
        }
        let mut token = SyncCancel::new();
        token.cancel();
        self.tasks.put(id, token);
        proof {
            assert forall|k: Seq<char>| #[trigger] self.runs(k) == old(self).runs(k) by {
                assert(self.tasks.at(k) == self.tasks.at(k));
            }
            assert forall|k: Seq<char>| #[trigger] self.stopped(k) == (old(self).stopped(k) || k
                == id@) by {
                assert(self.tasks.at(k) == self.tasks.at(k));
            }
        }
        true
    }

    /// Whether a synchronisation was asked to stop.
    pub fn is_cancelled(&self, id: &str) -> (r: bool)
        requires
            self.wf(),
        ensures
            r == self.stopped(id@),
    {
        match self.tasks.index_of(id) {
            Some(i) => self.tasks.rows[i].1.is_cancelled(),
            None => false,
        }
    }
}

/// A table gives for a key the value that was put under it, and none for a key that has none.
pub proof fn a_key_has_its_value<T>(t: Table<T>, i: int, key: Seq<char>)
    requires
        t.wf(),
    ensures
        (0 <= i < t.rows@.len()) ==> t.at(t.rows@[i].0@) == Some(t.rows@[i].1),
        (forall|k: int| 0 <= k < t.rows@.len() ==> (#[trigger] t.rows@[k]).0@ != key) ==> t.at(
            key,
        ) is None,
{
    let rows = t.rows@;
    if 0 <= i < rows.len() {
        only_row_has_the_value(rows, i);
    }
    value_is_there(rows, key);
}

} // verus!
